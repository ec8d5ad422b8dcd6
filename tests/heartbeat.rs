use coordinator::heartbeat::{is_alive, HeartbeatReading};

#[test]
fn stamp_younger_than_timeout_is_alive() {
    let reading = HeartbeatReading::Stamped { timestamp_ms: 1_000 };
    assert!(is_alive(&reading, 10_999, 10_000));
}

#[test]
fn stamp_as_old_as_timeout_is_not_alive() {
    let reading = HeartbeatReading::Stamped { timestamp_ms: 1_000 };
    assert!(!is_alive(&reading, 11_000, 10_000));
}

#[test]
fn stamp_thirty_seconds_old_is_not_alive() {
    let now: i64 = 1_700_000_030_000;
    let reading = HeartbeatReading::Stamped { timestamp_ms: now - 30_000 };
    assert!(!is_alive(&reading, now, 10_000));
}

#[test]
fn stamp_from_the_future_is_alive() {
    let reading = HeartbeatReading::Stamped { timestamp_ms: 5_000 };
    assert!(is_alive(&reading, 1_000, 10_000));
}

#[test]
fn missing_or_malformed_is_never_alive() {
    for timeout in [0u64, 1, 10_000, u64::MAX] {
        assert!(!is_alive(&HeartbeatReading::Missing, 0, timeout));
        assert!(!is_alive(&HeartbeatReading::Malformed, 0, timeout));
    }
}

#[test]
fn extreme_stamps_do_not_overflow() {
    let old = HeartbeatReading::Stamped { timestamp_ms: i64::MIN };
    assert!(!is_alive(&old, i64::MAX, u64::MAX));
    let future = HeartbeatReading::Stamped { timestamp_ms: i64::MAX };
    assert!(is_alive(&future, i64::MIN, 0));
}

#[test]
fn zero_timeout_is_never_alive_for_past_stamp() {
    let reading = HeartbeatReading::Stamped { timestamp_ms: 10 };
    assert!(!is_alive(&reading, 10, 0));
}
