use coordinator::heartbeat::HeartbeatReading;
use coordinator::supervisor::{
    Action, Event, Phase, ProcessStatus, Settings, Supervisor, WorkerRecord, POLL_INTERVAL_MS,
    RESTART_BACKOFF_MS,
};

fn settings(world_size: usize, max_restarts: usize, timeout_ms: u64) -> Settings {
    Settings { world_size, max_restarts, heartbeat_timeout_ms: timeout_ms }
}

fn started(world_size: usize, max_restarts: usize, timeout_ms: u64, now_ms: i64) -> Supervisor {
    let mut sup = Supervisor::new(settings(world_size, max_restarts, timeout_ms));
    for rank in 0..world_size {
        assert_eq!(sup.pending_action(), Action::Launch { rank });
        sup.step(Event::Launched { now_ms });
    }
    assert_eq!(sup.pending_action(), Action::Sleep { ms: POLL_INTERVAL_MS });
    sup
}

fn fresh(now_ms: i64) -> Event {
    Event::Probed { reading: HeartbeatReading::Stamped { timestamp_ms: now_ms - 100 }, now_ms }
}

#[test]
fn clean_exit_restarts_then_drops_while_other_rank_keeps_loop_alive() {
    let mut sup = started(2, 1, 10_000, 0);

    // t = 1 s: worker 0 has exited cleanly, worker 1 is healthy.
    assert_eq!(sup.step(Event::Done), Action::Poll { rank: 0 });
    assert_eq!(
        sup.step(Event::Polled { status: ProcessStatus::Exited { success: true } }),
        Action::Poll { rank: 1 }
    );
    assert_eq!(sup.step(Event::Polled { status: ProcessStatus::Running }), Action::Probe { rank: 1 });
    assert_eq!(
        sup.step(fresh(1_000)),
        Action::Backoff { rank: 0, attempt: 1, ms: RESTART_BACKOFF_MS }
    );
    assert_eq!(
        sup.record(0),
        Some(WorkerRecord { rank: 0, restart_count: 0, last_heartbeat_ms: 0 })
    );
    assert_eq!(sup.step(Event::Done), Action::Launch { rank: 0 });
    assert_eq!(sup.step(Event::Launched { now_ms: 1_500 }), Action::Sleep { ms: POLL_INTERVAL_MS });
    assert_eq!(
        sup.record(0),
        Some(WorkerRecord { rank: 0, restart_count: 1, last_heartbeat_ms: 1_500 })
    );

    // t = 3 s: worker 0 exits again; its budget is spent.
    assert_eq!(sup.step(Event::Done), Action::Poll { rank: 0 });
    sup.step(Event::Polled { status: ProcessStatus::Exited { success: true } });
    sup.step(Event::Polled { status: ProcessStatus::Running });
    assert_eq!(sup.step(fresh(3_000)), Action::Drop { rank: 0 });
    assert_eq!(sup.step(Event::Done), Action::Sleep { ms: POLL_INTERVAL_MS });
    assert_eq!(sup.record(0), None);
    assert_eq!(sup.tracked_ranks(), vec![1]);

    // Worker 1 keeps publishing fresh heartbeats: the loop never completes.
    for sweep in 0..5i64 {
        assert_eq!(sup.step(Event::Done), Action::Poll { rank: 1 });
        sup.step(Event::Polled { status: ProcessStatus::Running });
        assert_eq!(sup.step(fresh(5_000 + sweep * 500)), Action::Sleep { ms: POLL_INTERVAL_MS });
        assert!(!sup.is_finished());
    }
    assert_eq!(
        sup.record(1),
        Some(WorkerRecord { rank: 1, restart_count: 0, last_heartbeat_ms: 0 })
    );
}

#[test]
fn stale_heartbeat_terminates_and_restarts() {
    let mut sup = started(1, 3, 10_000, 0);
    sup.step(Event::Done);
    assert_eq!(sup.step(Event::Polled { status: ProcessStatus::Running }), Action::Probe { rank: 0 });
    let now_ms: i64 = 1_700_000_000_000;
    let stale = HeartbeatReading::Stamped { timestamp_ms: now_ms - 30_000 };
    assert_eq!(sup.step(Event::Probed { reading: stale, now_ms }), Action::Terminate { rank: 0 });
    assert_eq!(
        sup.step(Event::Done),
        Action::Backoff { rank: 0, attempt: 1, ms: RESTART_BACKOFF_MS }
    );
}

#[test]
fn missing_heartbeat_is_not_alive() {
    let mut sup = started(1, 3, 10_000, 0);
    sup.step(Event::Done);
    sup.step(Event::Polled { status: ProcessStatus::Running });
    assert_eq!(
        sup.step(Event::Probed { reading: HeartbeatReading::Missing, now_ms: 1 }),
        Action::Terminate { rank: 0 }
    );
}

#[test]
fn malformed_heartbeat_is_not_alive() {
    let mut sup = started(1, 3, 10_000, 0);
    sup.step(Event::Done);
    sup.step(Event::Polled { status: ProcessStatus::Running });
    assert_eq!(
        sup.step(Event::Probed { reading: HeartbeatReading::Malformed, now_ms: 1 }),
        Action::Terminate { rank: 0 }
    );
}

#[test]
fn failed_status_check_is_restarted() {
    let mut sup = started(1, 2, 10_000, 0);
    sup.step(Event::Done);
    assert_eq!(
        sup.step(Event::Polled { status: ProcessStatus::Unknown }),
        Action::Backoff { rank: 0, attempt: 1, ms: RESTART_BACKOFF_MS }
    );
}

#[test]
fn crash_exit_is_restarted() {
    let mut sup = started(3, 2, 10_000, 0);
    sup.step(Event::Done);
    sup.step(Event::Polled { status: ProcessStatus::Running });
    assert_eq!(sup.step(fresh(700)), Action::Poll { rank: 1 });
    sup.step(Event::Polled { status: ProcessStatus::Exited { success: false } });
    sup.step(Event::Polled { status: ProcessStatus::Running });
    assert_eq!(
        sup.step(fresh(700)),
        Action::Backoff { rank: 1, attempt: 1, ms: RESTART_BACKOFF_MS }
    );
    sup.step(Event::Done);
    sup.step(Event::Launched { now_ms: 900 });
    assert_eq!(
        sup.record(1),
        Some(WorkerRecord { rank: 1, restart_count: 1, last_heartbeat_ms: 900 })
    );
    assert_eq!(sup.tracked_count(), 3);
}

#[test]
fn zero_budget_drops_at_first_failure_and_completes() {
    let mut sup = started(2, 0, 10_000, 0);
    sup.step(Event::Done);
    sup.step(Event::Polled { status: ProcessStatus::Exited { success: true } });
    assert_eq!(
        sup.step(Event::Polled { status: ProcessStatus::Exited { success: false } }),
        Action::Drop { rank: 0 }
    );
    assert_eq!(sup.step(Event::Done), Action::Drop { rank: 1 });
    assert_eq!(sup.step(Event::Done), Action::Complete);
    assert!(sup.is_finished());
    assert_eq!(sup.tracked_count(), 0);
    assert_eq!(sup.step(Event::Done), Action::Complete);
}

#[test]
fn relaunch_failure_keeps_the_rank_tracked() {
    let mut sup = started(1, 2, 10_000, 0);
    sup.step(Event::Done);
    sup.step(Event::Polled { status: ProcessStatus::Exited { success: false } });
    assert_eq!(sup.step(Event::Done), Action::Launch { rank: 0 });
    assert_eq!(sup.step(Event::LaunchFailed), Action::Sleep { ms: POLL_INTERVAL_MS });
    assert_eq!(
        sup.record(0),
        Some(WorkerRecord { rank: 0, restart_count: 1, last_heartbeat_ms: 0 })
    );

    // No process answers for the rank: the next sweep flags it and spends the last unit.
    assert_eq!(sup.step(Event::Done), Action::Poll { rank: 0 });
    assert_eq!(
        sup.step(Event::Polled { status: ProcessStatus::Unknown }),
        Action::Backoff { rank: 0, attempt: 2, ms: RESTART_BACKOFF_MS }
    );
    sup.step(Event::Done);
    assert_eq!(sup.step(Event::LaunchFailed), Action::Sleep { ms: POLL_INTERVAL_MS });
    sup.step(Event::Done);
    assert_eq!(
        sup.step(Event::Polled { status: ProcessStatus::Unknown }),
        Action::Drop { rank: 0 }
    );
    assert_eq!(sup.step(Event::Done), Action::Complete);
    assert_eq!(sup.record(0), None);
}

#[test]
fn initial_launch_failure_aborts() {
    let mut sup = Supervisor::new(settings(3, 1, 10_000));
    sup.step(Event::Launched { now_ms: 5 });
    assert_eq!(sup.step(Event::LaunchFailed), Action::Abort { rank: 1 });
    assert_eq!(sup.phase(), Phase::Aborted { rank: 1 });
    assert_eq!(sup.step(Event::Done), Action::Abort { rank: 1 });
}

#[test]
fn empty_world_completes_after_first_sweep() {
    let mut sup = Supervisor::new(settings(0, 1, 10_000));
    assert_eq!(sup.pending_action(), Action::Sleep { ms: POLL_INTERVAL_MS });
    assert_eq!(sup.step(Event::Done), Action::Complete);
}

#[test]
fn unexpected_event_repeats_pending_action() {
    let mut sup = started(2, 1, 10_000, 0);
    sup.step(Event::Done);
    assert_eq!(sup.step(Event::LaunchFailed), Action::Poll { rank: 0 });
    assert_eq!(sup.step(Event::Done), Action::Poll { rank: 0 });
    assert_eq!(sup.phase(), Phase::Polling { rank: 0 });
}

#[test]
fn settings_are_kept() {
    let sup = Supervisor::new(settings(4, 50, 10_000));
    assert_eq!(sup.settings(), settings(4, 50, 10_000));
    assert_eq!(sup.tracked_count(), 0);
    assert_eq!(sup.record(9), None);
}
