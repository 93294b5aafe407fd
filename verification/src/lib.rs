//! Helpers for writing BSD userland tools: escape processing, flag parsing,
//! bounded number parsing, byte visualisation, and the text-processing cores of
//! `echo`, `cat`, `chroot` and `watchdogd`.
use vstd::prelude::*;

/// Character and UTF-8 helpers shared by the text-processing modules.
pub mod text;
/// Backslash escape sequence processing (C-style escapes).
pub mod escape;
/// Custom flag parser with GNU-style short option support.
pub mod flags;
/// Byte-visibility rendering (`vis(3)` semantics, used by `cat -v`).
pub mod vis;
/// OpenBSD `strtonum(3)`: bounded numeric parsing.
pub mod strtonum;
/// Daemon signal-watching: reading the flag a signal handler raises.
pub mod sig;
/// Program-name extraction from argv[0].
pub mod progname;
/// The byte-by-byte rendering that `cat -benstv` applies.
pub mod cook;
/// The option scan and output of `echo`.
pub mod echo;
/// The option checks of `watchdogd`.
pub mod watchdog;
/// The group-list handling of `chroot -g`.
pub mod chroot;

verus! {

/// Declares `std::io::Error`, the error type of the writer-style functions
/// [`escape::write_escaped`] and [`vis::write_vis_byte`].
#[verifier::external_type_specification]
#[verifier::external_body]
pub struct ExIoError(std::io::Error);

} // verus!
