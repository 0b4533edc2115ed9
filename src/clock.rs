//! The decisions of the start-up clock check: the system clock must agree,
//! to the second, with an HTTPS time service and an NTP server, in one of a
//! bounded number of attempts. Fetching the times is left to the caller.
use vstd::prelude::*;

verus! {

/// How many attempts the clock check makes.
pub const RETRIES: u8 = 10;

/// Seconds from the NTP era (1900) to the Unix epoch (1970).
pub const NTP_UNIX_OFFSET: u64 = 2208988800;

/// What the clock check does after an attempt.
#[derive(Debug, Clone, Copy, PartialEq, Eq, Structural)]
pub enum ClockStep {
    /// The clocks agreed: the check passes.
    Passed,
    /// They did not, and attempts are left: try again.
    Retry,
    /// They did not, and no attempt is left: the system clock is invalid.
    Failed,
}

/// An NTP timestamp's seconds as Unix seconds; `None` before 1970.
pub fn ntp_to_unix(ntp_secs: u64) -> (r: Option<u64>)
    ensures
        ntp_secs >= NTP_UNIX_OFFSET ==> r == Some((ntp_secs - NTP_UNIX_OFFSET) as u64),
        ntp_secs < NTP_UNIX_OFFSET ==> r is None,
{
    if ntp_secs >= NTP_UNIX_OFFSET {
        Some(ntp_secs - NTP_UNIX_OFFSET)
    } else {
        None
    }
}

/// A reported time advanced by the seconds its request took; `None` on overflow.
pub fn add_elapsed(time: u64, elapsed: u64) -> (r: Option<u64>)
    ensures
        time + elapsed <= u64::MAX ==> r == Some((time + elapsed) as u64),
        time + elapsed > u64::MAX ==> r is None,
{
    time.checked_add(elapsed)
}

/// Whether the three clocks show the same second.
pub fn clocks_agree(system_time: u64, worldtimeapi_time: u64, ntp_time: u64) -> (r: bool)
    ensures
        r == (system_time == worldtimeapi_time && system_time == ntp_time),
{
    system_time == worldtimeapi_time && system_time == ntp_time
}

/// The step after an attempt, given the attempts that failed before it.
pub fn next_step(failures: u8, agreed: bool) -> (r: ClockStep)
    requires
        failures < RETRIES,
    ensures
        agreed ==> r == ClockStep::Passed,
        !agreed && failures + 1 < RETRIES ==> r == ClockStep::Retry,
        !agreed && failures + 1 >= RETRIES ==> r == ClockStep::Failed,
{
    if agreed {
        ClockStep::Passed
    } else if failures + 1 < RETRIES {
        ClockStep::Retry
    } else {
        ClockStep::Failed
    }
}

} // verus!
