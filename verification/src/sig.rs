use vstd::prelude::*;

use std::sync::atomic::AtomicBool;
use std::sync::atomic::Ordering;

verus! {

/// Returns `true` if a signal-watching flag has been raised.
///
/// The flag is set asynchronously by a signal handler, so the value read is
/// whatever was last stored; nothing more can be said of it.
pub fn raised(flag: &AtomicBool) -> bool {
    flag.load(Ordering::Relaxed)
}

} // verus!
