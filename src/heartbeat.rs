use vstd::prelude::*;

verus! {

/// What the coordinator learned from a worker's heartbeat artifact.
#[derive(Clone, Copy, Debug, PartialEq, Eq, Structural)]
pub enum HeartbeatReading {
    /// No artifact at the expected path.
    Missing,
    /// The artifact exists but could not be read or parsed as a record.
    Malformed,
    /// A well-formed record stamped at `timestamp_ms` (milliseconds since the epoch).
    Stamped { timestamp_ms: i64 },
}

/// A stamp taken at `timestamp_ms` is fresh at `now_ms` under `timeout_ms`.
pub open spec fn fresh(timestamp_ms: int, now_ms: int, timeout_ms: int) -> bool {
    now_ms - timestamp_ms < timeout_ms
}

/// The liveness verdict for a reading.
pub open spec fn alive_spec(reading: HeartbeatReading, now_ms: int, timeout_ms: int) -> bool {
    match reading {
        HeartbeatReading::Stamped { timestamp_ms } => fresh(timestamp_ms as int, now_ms, timeout_ms),
        _ => false,
    }
}

/// Decides liveness: alive iff the reading holds a stamp strictly younger than the timeout.
pub fn is_alive(reading: &HeartbeatReading, now_ms: i64, timeout_ms: u64) -> (r: bool)
    ensures
        r == alive_spec(*reading, now_ms as int, timeout_ms as int),
{
    match reading {
        HeartbeatReading::Stamped { timestamp_ms } => {
            let age: i128 = now_ms as i128 - *timestamp_ms as i128;
            age < timeout_ms as i128
        },
        _ => false,
    }
}


/// Liveness is decided by freshness alone: a stamp younger than the timeout is
/// alive, one at least as old as the timeout is not, and a missing or
/// malformed artifact is never alive, whatever the timeout.
pub proof fn lemma_liveness_by_freshness(reading: HeartbeatReading, now_ms: int, timeout_ms: int)
    ensures
        reading is Stamped ==> (alive_spec(reading, now_ms, timeout_ms) <==> now_ms
            - reading->timestamp_ms < timeout_ms),
        reading is Missing ==> !alive_spec(reading, now_ms, timeout_ms),
        reading is Malformed ==> !alive_spec(reading, now_ms, timeout_ms),
{
}

/// Liveness is monotonic in freshness: a stamp that is alive stays alive when
/// replaced by a later one, and one that is not alive stays so when replaced
/// by an earlier one.
pub proof fn lemma_liveness_monotonic(older: i64, newer: i64, now_ms: int, timeout_ms: int)
    requires
        older <= newer,
    ensures
        alive_spec(HeartbeatReading::Stamped { timestamp_ms: older }, now_ms, timeout_ms)
            ==> alive_spec(HeartbeatReading::Stamped { timestamp_ms: newer }, now_ms, timeout_ms),
        !alive_spec(HeartbeatReading::Stamped { timestamp_ms: newer }, now_ms, timeout_ms)
            ==> !alive_spec(HeartbeatReading::Stamped { timestamp_ms: older }, now_ms, timeout_ms),
{
}

} // verus!
