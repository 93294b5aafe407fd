use vstd::prelude::*;

use crate::strtonum::{integer_value, parse_i64};
use crate::text::chars_of;

verus! {

/// What `watchdogd` makes of an option value: a number read as `i64::from_str` reads
/// it (no white space; a value outside the `i64` range is invalid), checked against
/// the bounds and converted to `u32` by `as`.
pub open spec fn option_number_spec(s: Seq<char>, min: i64, max: i64) -> Result<u32, Seq<char>> {
    match integer_value(s) {
        Some(v) => {
            if v < i64::MIN || v > i64::MAX {
                Err("invalid"@)
            } else if v < min {
                Err("too small"@)
            } else if v > max {
                Err("too large"@)
            } else {
                Ok(v as u32)
            }
        },
        None => Err("invalid"@),
    }
}

/// Parses the value of `watchdogd`'s `-i` or `-p` option: a decimal integer in
/// `min..=max`. Returns `Err("too small")`, `Err("too large")` or `Err("invalid")`.
pub fn strtonum(s: &str, min: i64, max: i64) -> (r: Result<u32, &'static str>)
    ensures
        r matches Ok(n) ==> option_number_spec(s@, min, max) == Ok::<u32, Seq<char>>(n),
        r matches Err(e) ==> option_number_spec(s@, min, max) == Err::<u32, Seq<char>>(e@),
{
    let cs = chars_of(s);
    let len = cs.len();
    assert(cs@.subrange(0, len as int) =~= cs@);
    match parse_i64(&cs, 0, len) {
        Some(n) => {
            if n < min {
                Err("too small")
            } else if n > max {
                Err("too large")
            } else {
                Ok(n as u32)
            }
        },
        None => Err("invalid"),
    }
}

/// How often `watchdogd` retriggers the watchdog, given the `-i` interval (0 when
/// not given) and the `-p` period: without `-i`, a third of the period and at least
/// one second. `None` when that interval is not shorter than the period.
pub open spec fn retrigger_spec(interval: u32, period: u32) -> Option<u32> {
    let i = if interval == 0 {
        if period / 3 == 0 {
            1
        } else {
            period / 3
        }
    } else {
        interval
    };
    if period <= i {
        None
    } else {
        Some(i as u32)
    }
}

/// An accepted retrigger interval is at least one second and shorter than the period.
pub proof fn lemma_retrigger_in_period(interval: u32, period: u32)
    ensures
        retrigger_spec(interval, period) matches Some(i) ==> 1 <= i < period,
{
}

/// The retrigger interval `watchdogd` uses; see [`retrigger_spec`]. `None` means
/// "retrigger interval too long".
pub fn retrigger_interval(interval: u32, period: u32) -> (r: Option<u32>)
    ensures
        r == retrigger_spec(interval, period),
{
    let mut interval = interval;
    if interval == 0 {
        interval = period / 3;
        if interval == 0 {
            interval = 1;
        }
    }
    if period <= interval {
        None
    } else {
        Some(interval)
    }
}

/// What `watchdogd` does once it has set the watchdog period and read it back.
pub enum AfterSetup {
    /// The period could not be read back: warn, restore the original values and
    /// exit with status 1.
    ReadBackFailed,
    /// The device's period is not longer than the retrigger interval: warn,
    /// restore the original values and exit with status 1.
    IntervalTooLong,
    /// Go on to daemonize and retrigger.
    Proceed,
}

/// `watchdogd`'s decision after reading back the period the device accepted
/// (`None` when that read failed), for the requested `period`, the retrigger
/// `interval` and `-q`. The flag says whether to warn first that the device
/// adjusted the period, which it does unless `-q` was given.
pub open spec fn after_setup_spec(read_back: Option<i32>, period: u32, interval: u32, quiet: bool) -> (bool, AfterSetup) {
    match read_back {
        None => (false, AfterSetup::ReadBackFailed),
        Some(n) => {
            let device = n as u32;
            (
                device != period && !quiet,
                if device <= interval {
                    AfterSetup::IntervalTooLong
                } else {
                    AfterSetup::Proceed
                },
            )
        },
    }
}

/// See [`after_setup_spec`].
pub fn after_setup(read_back: Option<i32>, period: u32, interval: u32, quiet: bool) -> (r: (bool, AfterSetup))
    ensures
        r == after_setup_spec(read_back, period, interval, quiet),
{
    match read_back {
        None => (false, AfterSetup::ReadBackFailed),
        Some(n) => {
            let device = n as u32;
            let warn_adjusted = device != period && !quiet;
            if device <= interval {
                (warn_adjusted, AfterSetup::IntervalTooLong)
            } else {
                (warn_adjusted, AfterSetup::Proceed)
            }
        },
    }
}

/// How `watchdogd` ends once its retrigger loop stops: whether it restores the
/// original watchdog values, and its exit status.
pub struct Finish {
    pub restore: bool,
    pub status: i32,
}

/// The end of `watchdogd`: it restores the original values unless `-n` was given,
/// and exits with status 1 when a retrigger failed (which is what stopped the loop)
/// and 0 when a `SIGTERM` stopped it.
pub fn finish(no_restore: bool, retrigger_failed: bool) -> (f: Finish)
    ensures
        f.restore == !no_restore,
        f.status == (if retrigger_failed { 1i32 } else { 0i32 }),
{
    Finish { restore: !no_restore, status: if retrigger_failed { 1 } else { 0 } }
}

} // verus!
