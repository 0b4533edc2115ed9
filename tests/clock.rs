use streamlet::clock::{add_elapsed, clocks_agree, next_step, ntp_to_unix, ClockStep, RETRIES};

#[test]
fn ntp_seconds_convert_to_unix() {
    assert_eq!(ntp_to_unix(2208988800), Some(0));
    assert_eq!(ntp_to_unix(2208988800 + 1_700_000_000), Some(1_700_000_000));
    assert_eq!(ntp_to_unix(5), None);
}

#[test]
fn elapsed_time_is_added() {
    assert_eq!(add_elapsed(100, 2), Some(102));
    assert_eq!(add_elapsed(u64::MAX, 1), None);
}

#[test]
fn clocks_must_agree_to_the_second() {
    assert!(clocks_agree(5, 5, 5));
    assert!(!clocks_agree(5, 6, 5));
    assert!(!clocks_agree(5, 5, 4));
}

#[test]
fn retries_are_bounded() {
    assert_eq!(next_step(0, true), ClockStep::Passed);
    assert_eq!(next_step(0, false), ClockStep::Retry);
    assert_eq!(next_step(RETRIES - 2, false), ClockStep::Retry);
    assert_eq!(next_step(RETRIES - 1, false), ClockStep::Failed);
    assert_eq!(next_step(RETRIES - 1, true), ClockStep::Passed);
}
