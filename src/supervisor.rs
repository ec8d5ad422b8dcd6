use vstd::prelude::*;

use crate::heartbeat::{alive_spec, is_alive, HeartbeatReading};

verus! {

/// Pause between two sweeps of the supervision loop.
pub const POLL_INTERVAL_MS: u64 = 500;

/// Pause before a failed worker is launched again.
pub const RESTART_BACKOFF_MS: u64 = 500;

/// What the supervisor tracks for one live worker slot.
#[derive(Clone, Copy, Debug, PartialEq, Eq, Structural)]
pub struct WorkerRecord {
    pub rank: usize,
    pub restart_count: usize,
    /// Wall-clock time (milliseconds since the epoch) at which the worker was launched.
    pub last_heartbeat_ms: i64,
}

/// The parameters that the supervision decisions depend on.
#[derive(Clone, Copy, Debug, PartialEq, Eq, Structural)]
pub struct Settings {
    pub world_size: usize,
    pub max_restarts: usize,
    pub heartbeat_timeout_ms: u64,
}

/// The answer of a process handle to an exit-status poll.
#[derive(Clone, Copy, Debug, PartialEq, Eq)]
pub enum ProcessStatus {
    /// The process has terminated, cleanly or not.
    Exited { success: bool },
    /// The process is still running.
    Running,
    /// The status could not be obtained.
    Unknown,
}

/// What the driver of the loop reports back after carrying out an action.
#[derive(Clone, Copy, Debug)]
pub enum Event {
    /// The requested launch started a process, at `now_ms`.
    Launched { now_ms: i64 },
    /// The requested launch could not start a process.
    LaunchFailed,
    /// The requested status poll answered.
    Polled { status: ProcessStatus },
    /// The requested heartbeat probe read `reading`, at `now_ms`.
    Probed { reading: HeartbeatReading, now_ms: i64 },
    /// A sleep, a termination request or a drop notice has been carried out.
    Done,
}

/// What the supervisor asks its driver to do next.
#[derive(Clone, Copy, Debug, PartialEq, Eq, Structural)]
pub enum Action {
    /// Start a worker process for `rank`.
    Launch { rank: usize },
    /// Wait `ms` milliseconds before the next sweep.
    Sleep { ms: u64 },
    /// Ask the process of `rank` for its exit status.
    Poll { rank: usize },
    /// Read the heartbeat artifact of `rank`.
    Probe { rank: usize },
    /// Forcibly terminate the process of `rank`.
    Terminate { rank: usize },
    /// Wait `ms` milliseconds before relaunch number `attempt` of `rank`.
    Backoff { rank: usize, attempt: usize, ms: u64 },
    /// `rank` has exhausted its restart budget and is no longer tracked.
    Drop { rank: usize },
    /// No worker is tracked any more: the job is complete.
    Complete,
    /// The initial launch of `rank` failed: the worker pool cannot be established.
    Abort { rank: usize },
}

/// Where the supervisor stands in its cycle.
#[derive(Clone, Copy, Debug, PartialEq, Eq, Structural)]
pub enum Phase {
    /// Initial launch of `rank` requested.
    Starting { rank: usize },
    /// Sleeping until the next sweep.
    Waiting,
    /// Status poll of `rank` requested during a sweep.
    Polling { rank: usize },
    /// Heartbeat probe of the running `rank` requested.
    Probing { rank: usize },
    /// Termination of the stalled `rank` requested.
    Terminating { rank: usize },
    /// Backoff before relaunching the `index`-th flagged rank as attempt `restart_count`.
    BackingOff { index: usize, restart_count: usize },
    /// Relaunch of the `index`-th flagged rank requested.
    Relaunching { index: usize, restart_count: usize },
    /// The `index`-th flagged rank was dropped; notice requested.
    Dropping { index: usize },
    /// Every rank is gone; the loop is over.
    Finished,
    /// The initial launch of `rank` failed.
    Aborted { rank: usize },
}

/// The abstract state of a supervisor.
pub struct SupervisorModel {
    pub settings: Settings,
    /// Slot `r` holds the record of rank `r`, if that rank is tracked.
    pub slots: Seq<Option<WorkerRecord>>,
    /// Ranks flagged for restart in the current sweep, in increasing order.
    pub flagged: Seq<usize>,
    pub phase: Phase,
}

/// The single owner of the rank table, driven one event at a time.
pub struct Supervisor {
    settings: Settings,
    slots: Vec<Option<WorkerRecord>>,
    flagged: Vec<usize>,
    phase: Phase,
}

pub open spec fn record_of(rank: usize, restart_count: usize, now_ms: i64) -> WorkerRecord {
    WorkerRecord { rank, restart_count, last_heartbeat_ms: now_ms }
}

/// The least occupied rank at or after `from`.
pub open spec fn next_occupied(slots: Seq<Option<WorkerRecord>>, from: nat) -> Option<nat>
    decreases slots.len() - from,
{
    if from >= slots.len() {
        None
    } else if slots[from as int] is Some {
        Some(from)
    } else {
        next_occupied(slots, from + 1)
    }
}

/// No rank is tracked.
pub open spec fn all_vacant(slots: Seq<Option<WorkerRecord>>) -> bool {
    forall|r: int| 0 <= r < slots.len() ==> slots[r] is None
}

/// Goes on with the sweep at rank `from`: polls the next occupied rank, or,
/// when none is left, turns to the flagged ranks.
pub open spec fn scan_from(s: SupervisorModel, from: nat) -> SupervisorModel {
    match next_occupied(s.slots, from) {
        Some(r) => SupervisorModel { phase: Phase::Polling { rank: r as usize }, ..s },
        None => restart_from(s, 0),
    }
}

/// Handles the flagged ranks from position `index` on: the first one that is
/// still tracked is either scheduled for relaunch with an incremented count
/// (while its count is below the budget; its record stays until it is
/// replaced) or leaves the table and is dropped. When
/// none is left, the loop finishes if the table is empty and sleeps otherwise.
pub open spec fn restart_from(s: SupervisorModel, index: nat) -> SupervisorModel
    decreases s.flagged.len() - index,
{
    if index >= s.flagged.len() {
        SupervisorModel {
            phase: if all_vacant(s.slots) { Phase::Finished } else { Phase::Waiting },
            ..s
        }
    } else {
        let rank = s.flagged[index as int];
        match s.slots[rank as int] {
            Some(w) => {
                if w.restart_count < s.settings.max_restarts {
                    SupervisorModel {
                        phase: Phase::BackingOff {
                            index: index as usize,
                            restart_count: (w.restart_count + 1) as usize,
                        },
                        ..s
                    }
                } else {
                    SupervisorModel {
                        slots: s.slots.update(rank as int, None),
                        phase: Phase::Dropping { index: index as usize },
                        ..s
                    }
                }
            },
            None => restart_from(s, (index + 1) as nat),
        }
    }
}

/// A worker needs attention after this poll answer: any exit, or a failed check.
pub open spec fn needs_restart(status: ProcessStatus) -> bool {
    status !is Running
}

/// The state after `e` happens in state `s`. An event that does not answer
/// the pending action leaves the state as it is.
pub open spec fn next(s: SupervisorModel, e: Event) -> SupervisorModel {
    match s.phase {
        Phase::Starting { rank } => match e {
            Event::Launched { now_ms } => {
                let slots = s.slots.update(rank as int, Some(record_of(rank, 0, now_ms)));
                let phase = if rank + 1 < s.settings.world_size {
                    Phase::Starting { rank: (rank + 1) as usize }
                } else {
                    Phase::Waiting
                };
                SupervisorModel { slots, phase, ..s }
            },
            Event::LaunchFailed => SupervisorModel { phase: Phase::Aborted { rank }, ..s },
            _ => s,
        },
        Phase::Waiting => match e {
            Event::Done => scan_from(SupervisorModel { flagged: Seq::empty(), ..s }, 0),
            _ => s,
        },
        Phase::Polling { rank } => match e {
            Event::Polled { status } => if needs_restart(status) {
                scan_from(SupervisorModel { flagged: s.flagged.push(rank), ..s }, (rank + 1) as nat)
            } else {
                SupervisorModel { phase: Phase::Probing { rank }, ..s }
            },
            _ => s,
        },
        Phase::Probing { rank } => match e {
            Event::Probed { reading, now_ms } => if alive_spec(
                reading,
                now_ms as int,
                s.settings.heartbeat_timeout_ms as int,
            ) {
                scan_from(s, (rank + 1) as nat)
            } else {
                SupervisorModel { phase: Phase::Terminating { rank }, ..s }
            },
            _ => s,
        },
        Phase::Terminating { rank } => match e {
            Event::Done => scan_from(
                SupervisorModel { flagged: s.flagged.push(rank), ..s },
                (rank + 1) as nat,
            ),
            _ => s,
        },
        Phase::BackingOff { index, restart_count } => match e {
            Event::Done => SupervisorModel {
                phase: Phase::Relaunching { index, restart_count },
                ..s
            },
            _ => s,
        },
        Phase::Relaunching { index, restart_count } => match e {
            Event::Launched { now_ms } => {
                let rank = s.flagged[index as int];
                let slots = s.slots.update(
                    rank as int,
                    Some(record_of(rank, restart_count, now_ms)),
                );
                restart_from(SupervisorModel { slots, ..s }, (index + 1) as nat)
            },
            Event::LaunchFailed => {
                let rank = s.flagged[index as int];
                let slots = s.slots.update(
                    rank as int,
                    Some(WorkerRecord { restart_count, ..s.slots[rank as int]->0 }),
                );
                restart_from(SupervisorModel { slots, ..s }, (index + 1) as nat)
            },
            _ => s,
        },
        Phase::Dropping { index } => match e {
            Event::Done => restart_from(s, (index + 1) as nat),
            _ => s,
        },
        Phase::Finished => s,
        Phase::Aborted { .. } => s,
    }
}

/// The action that state `s` asks for.
pub open spec fn pending(s: SupervisorModel) -> Action {
    match s.phase {
        Phase::Starting { rank } => Action::Launch { rank },
        Phase::Waiting => Action::Sleep { ms: POLL_INTERVAL_MS },
        Phase::Polling { rank } => Action::Poll { rank },
        Phase::Probing { rank } => Action::Probe { rank },
        Phase::Terminating { rank } => Action::Terminate { rank },
        Phase::BackingOff { index, restart_count } => Action::Backoff {
            rank: s.flagged[index as int],
            attempt: restart_count,
            ms: RESTART_BACKOFF_MS,
        },
        Phase::Relaunching { index, .. } => Action::Launch { rank: s.flagged[index as int] },
        Phase::Dropping { index } => Action::Drop { rank: s.flagged[index as int] },
        Phase::Finished => Action::Complete,
        Phase::Aborted { rank } => Action::Abort { rank },
    }
}

/// The state of a fresh supervisor.
pub open spec fn initial(settings: Settings) -> SupervisorModel {
    SupervisorModel {
        settings,
        slots: Seq::new(settings.world_size as nat, |r: int| None),
        flagged: Seq::empty(),
        phase: if settings.world_size > 0 { Phase::Starting { rank: 0 } } else { Phase::Waiting },
    }
}

/// The rank table and the flagged list are consistent: one slot per rank,
/// each record in the slot of its own rank, flagged ranks distinct and in range.
pub open spec fn table_wf(s: SupervisorModel) -> bool {
    &&& s.slots.len() == s.settings.world_size
    &&& s.flagged.len() <= s.settings.world_size
    &&& forall|r: int|
        0 <= r < s.slots.len() && (#[trigger] s.slots[r]) is Some ==> s.slots[r]->0.rank == r
    &&& forall|i: int, j: int|
        0 <= i < j < s.flagged.len() ==> s.flagged[i] < s.flagged[j]
    &&& forall|i: int| 0 <= i < s.flagged.len() ==> #[trigger] s.flagged[i] < s.settings.world_size
    &&& forall|r: int|
        0 <= r < s.slots.len() && (#[trigger] s.slots[r]) is Some ==> s.slots[r]->0.restart_count
            <= s.settings.max_restarts
}

/// The `index`-th flagged rank is being relaunched as attempt `restart_count`:
/// its record is still in place, one count below, and the attempt is within budget.
pub open spec fn relaunch_wf(s: SupervisorModel, index: usize, restart_count: usize) -> bool {
    &&& index < s.flagged.len()
    &&& s.slots[s.flagged[index as int] as int] is Some
    &&& restart_count == s.slots[s.flagged[index as int] as int]->0.restart_count + 1
    &&& restart_count <= s.settings.max_restarts
}

/// Every flagged rank lies below `bound`, and so do their number.
pub open spec fn flagged_below(s: SupervisorModel, bound: nat) -> bool {
    &&& s.flagged.len() <= bound
    &&& forall|i: int| 0 <= i < s.flagged.len() ==> #[trigger] s.flagged[i] < bound
}

/// The phase refers to ranks and flagged positions that exist, and a finished
/// loop tracks no rank.
pub open spec fn phase_wf(s: SupervisorModel) -> bool {
    match s.phase {
        Phase::Starting { rank } => rank < s.settings.world_size,
        Phase::Polling { rank } => rank < s.settings.world_size && flagged_below(s, rank as nat),
        Phase::Probing { rank } => rank < s.settings.world_size && flagged_below(s, rank as nat),
        Phase::Terminating { rank } => rank < s.settings.world_size && flagged_below(s, rank as nat),
        Phase::BackingOff { index, restart_count } => relaunch_wf(s, index, restart_count),
        Phase::Relaunching { index, restart_count } => relaunch_wf(s, index, restart_count),
        Phase::Dropping { index } => index < s.flagged.len(),
        Phase::Finished => all_vacant(s.slots),
        _ => true,
    }
}

pub open spec fn model_wf(s: SupervisorModel) -> bool {
    table_wf(s) && phase_wf(s)
}

impl View for Supervisor {
    type V = SupervisorModel;

    closed spec fn view(&self) -> SupervisorModel {
        SupervisorModel {
            settings: self.settings,
            slots: self.slots@,
            flagged: self.flagged@,
            phase: self.phase,
        }
    }
}


/// A next occupied rank lies in range, at or after `from`, holds a record, and
/// every rank between `from` and it is vacant.
proof fn lemma_next_occupied(slots: Seq<Option<WorkerRecord>>, from: nat)
    ensures
        match next_occupied(slots, from) {
            Some(r) => from <= r < slots.len() && slots[r as int] is Some
                && forall|q: int| from <= q < r ==> slots[q] is None,
            None => forall|q: int| from <= q < slots.len() ==> slots[q] is None,
        },
    decreases slots.len() - from,
{
    if from < slots.len() && slots[from as int] is None {
        lemma_next_occupied(slots, from + 1);
    }
}

/// Handling the flagged ranks keeps the table consistent and leads to a
/// well-formed phase.
proof fn lemma_restart_from_wf(s: SupervisorModel, index: nat)
    requires
        table_wf(s),
    ensures
        model_wf(restart_from(s, index)),
        restart_from(s, index).settings == s.settings,
        restart_from(s, index).flagged == s.flagged,
    decreases s.flagged.len() - index,
{
    if index < s.flagged.len() {
        let rank = s.flagged[index as int];
        if s.slots[rank as int] is None {
            lemma_restart_from_wf(s, index + 1);
        }
    }
}

/// The state after `n` completion notices.
pub open spec fn after_done(s: SupervisorModel, n: nat) -> SupervisorModel
    decreases n,
{
    if n == 0 {
        s
    } else {
        after_done(next(s, Event::Done), (n - 1) as nat)
    }
}

/// The supervisor is about to launch `rank`: at startup, or as the relaunch
/// of a flagged rank.
pub open spec fn launching(s: SupervisorModel, rank: nat) -> bool {
    match s.phase {
        Phase::Starting { rank: k } => k <= rank,
        Phase::BackingOff { index, .. } => s.flagged[index as int] == rank,
        Phase::Relaunching { index, .. } => s.flagged[index as int] == rank,
        _ => false,
    }
}

proof fn lemma_restart_from_ignores_phase(s: SupervisorModel, t: SupervisorModel, index: nat)
    requires
        s.settings == t.settings,
        s.slots == t.slots,
        s.flagged == t.flagged,
    ensures
        restart_from(s, index) == restart_from(t, index),
    decreases s.flagged.len() - index,
{
    if index < s.flagged.len() && s.slots[s.flagged[index as int] as int] is None {
        lemma_restart_from_ignores_phase(s, t, index + 1);
    }
}

proof fn lemma_restart_from_keeps_others(s: SupervisorModel, index: nat, rank: int)
    requires
        table_wf(s),
        0 <= rank < s.slots.len(),
        forall|j: int| index <= j < s.flagged.len() ==> s.flagged[j] != rank,
    ensures
        restart_from(s, index).slots.len() == s.slots.len(),
        restart_from(s, index).slots[rank] == s.slots[rank],
        restart_from(s, index).flagged == s.flagged,
    decreases s.flagged.len() - index,
{
    if index < s.flagged.len() && s.slots[s.flagged[index as int] as int] is None {
        lemma_restart_from_keeps_others(s, index + 1, rank);
    }
}

/// A worker whose poll reports any exit, or a failed check, is flagged for
/// restart in the current sweep, and the sweep goes on past it.
pub proof fn lemma_exit_flags_rank(s: SupervisorModel, rank: usize, status: ProcessStatus)
    requires
        model_wf(s),
        s.phase == (Phase::Polling { rank }),
        status !is Running,
    ensures
        next(s, Event::Polled { status }) == scan_from(
            SupervisorModel { flagged: s.flagged.push(rank), ..s },
            (rank + 1) as nat,
        ),
        next(s, Event::Polled { status }).flagged == s.flagged.push(rank),
{
    lemma_restart_from_wf(SupervisorModel { flagged: s.flagged.push(rank), ..s }, 0);
}

/// A running worker whose heartbeat is not alive is terminated, then flagged
/// for restart in the current sweep.
pub proof fn lemma_stall_flags_rank(
    s: SupervisorModel,
    rank: usize,
    reading: HeartbeatReading,
    now_ms: i64,
)
    requires
        model_wf(s),
        s.phase == (Phase::Probing { rank }),
        !alive_spec(reading, now_ms as int, s.settings.heartbeat_timeout_ms as int),
    ensures
        pending(next(s, Event::Probed { reading, now_ms })) == (Action::Terminate { rank }),
        next(next(s, Event::Probed { reading, now_ms }), Event::Done) == scan_from(
            SupervisorModel { flagged: s.flagged.push(rank), ..s },
            (rank + 1) as nat,
        ),
        next(next(s, Event::Probed { reading, now_ms }), Event::Done).flagged == s.flagged.push(
            rank,
        ),
{
    let flagged = SupervisorModel { flagged: s.flagged.push(rank), ..s };
    let t = next(s, Event::Probed { reading, now_ms });
    let terminated = SupervisorModel { flagged: s.flagged.push(rank), ..t };
    lemma_restart_from_wf(flagged, 0);
    lemma_restart_from_ignores_phase(terminated, flagged, 0);
}

/// Restart handling never passes over a flagged rank that holds a record: it
/// stops at that rank, or at an earlier flagged one and leaves this record in
/// place for a later step.
pub proof fn lemma_restart_reaches_flagged(s: SupervisorModel, index: nat, j: int)
    requires
        table_wf(s),
        index <= j < s.flagged.len(),
        s.slots[s.flagged[j] as int] is Some,
    ensures
        match restart_from(s, index).phase {
            Phase::BackingOff { index: k, .. } => index <= k <= j && (k < j ==> restart_from(
                s,
                index,
            ).slots[s.flagged[j] as int] == s.slots[s.flagged[j] as int]),
            Phase::Dropping { index: k } => index <= k <= j && (k < j ==> restart_from(
                s,
                index,
            ).slots[s.flagged[j] as int] == s.slots[s.flagged[j] as int]),
            _ => false,
        },
    decreases s.flagged.len() - index,
{
    let rank = s.flagged[index as int];
    if s.slots[rank as int] is None {
        lemma_restart_reaches_flagged(s, index + 1, j);
    }
}

/// When restart handling reaches a flagged rank whose count is below the
/// budget, the rank is relaunched after the backoff, and its new record
/// carries the count plus one.
pub proof fn lemma_eligible_rank_relaunched(s: SupervisorModel, index: nat, now_ms: i64)
    requires
        model_wf(s),
        index < s.flagged.len(),
        s.slots[s.flagged[index as int] as int] is Some,
        s.slots[s.flagged[index as int] as int]->0.restart_count < s.settings.max_restarts,
    ensures
        ({
            let rank = s.flagged[index as int];
            let count = s.slots[rank as int]->0.restart_count;
            let backing_off = restart_from(s, index);
            let relaunching = next(backing_off, Event::Done);
            let relaunched = next(relaunching, Event::Launched { now_ms });
            &&& pending(backing_off) == (Action::Backoff {
                rank,
                attempt: (count + 1) as usize,
                ms: RESTART_BACKOFF_MS,
            })
            &&& pending(relaunching) == (Action::Launch { rank })
            &&& relaunched.slots[rank as int] == Some(record_of(rank, (count + 1) as usize, now_ms))
        }),
{
    let rank = s.flagged[index as int];
    let count = s.slots[rank as int]->0.restart_count;
    let relaunching = next(restart_from(s, index), Event::Done);
    let t = SupervisorModel {
        slots: relaunching.slots.update(
            rank as int,
            Some(record_of(rank, (count + 1) as usize, now_ms)),
        ),
        ..relaunching
    };
    lemma_restart_from_keeps_others(t, index + 1, rank as int);
}

/// When restart handling reaches a flagged rank whose count has reached the
/// budget, the rank leaves the table and is dropped, not relaunched.
pub proof fn lemma_exhausted_rank_dropped(s: SupervisorModel, index: nat)
    requires
        model_wf(s),
        index < s.flagged.len(),
        s.slots[s.flagged[index as int] as int] is Some,
        s.slots[s.flagged[index as int] as int]->0.restart_count >= s.settings.max_restarts,
    ensures
        restart_from(s, index).slots[s.flagged[index as int] as int] is None,
        pending(restart_from(s, index)) == (Action::Drop { rank: s.flagged[index as int] }),
        !launching(restart_from(s, index), s.flagged[index as int] as nat),
{
}

proof fn lemma_restart_from_keeps_vacant(s: SupervisorModel, index: nat, rank: nat)
    requires
        table_wf(s),
        rank < s.slots.len(),
        s.slots[rank as int] is None,
    ensures
        restart_from(s, index).slots[rank as int] is None,
        !launching(restart_from(s, index), rank),
    decreases s.flagged.len() - index,
{
    if index < s.flagged.len() {
        let r = s.flagged[index as int];
        if s.slots[r as int] is None {
            lemma_restart_from_keeps_vacant(s, index + 1, rank);
        }
    }
}

/// A rank that holds no record and is not about to be launched never gets a
/// record again, whatever happens: a dropped rank is never relaunched.
pub proof fn lemma_vacant_rank_stays_vacant(s: SupervisorModel, e: Event, rank: nat)
    requires
        model_wf(s),
        rank < s.slots.len(),
        s.slots[rank as int] is None,
        !launching(s, rank),
    ensures
        next(s, e).slots[rank as int] is None,
        !launching(next(s, e), rank),
{
    match s.phase {
        Phase::Waiting => {
            let t = SupervisorModel { flagged: Seq::empty(), ..s };
            lemma_restart_from_keeps_vacant(t, 0, rank);
        },
        Phase::Polling { rank: p } => {
            let t = SupervisorModel { flagged: s.flagged.push(p), ..s };
            lemma_restart_from_keeps_vacant(t, 0, rank);
        },
        Phase::Probing { .. } => {
            lemma_restart_from_keeps_vacant(s, 0, rank);
        },
        Phase::Terminating { rank: p } => {
            let t = SupervisorModel { flagged: s.flagged.push(p), ..s };
            lemma_restart_from_keeps_vacant(t, 0, rank);
        },
        Phase::Relaunching { index, restart_count } => {
            match e {
                Event::Launched { now_ms } => {
                    let f = s.flagged[index as int];
                    let t = SupervisorModel {
                        slots: s.slots.update(f as int, Some(record_of(f, restart_count, now_ms))),
                        ..s
                    };
                    lemma_restart_from_keeps_vacant(t, (index + 1) as nat, rank);
                },
                Event::LaunchFailed => {
                    let f = s.flagged[index as int];
                    let t = SupervisorModel {
                        slots: s.slots.update(
                            f as int,
                            Some(WorkerRecord { restart_count, ..s.slots[f as int]->0 }),
                        ),
                        ..s
                    };
                    lemma_restart_from_keeps_vacant(t, (index + 1) as nat, rank);
                },
                _ => {},
            }
        },
        Phase::Dropping { index } => {
            lemma_restart_from_keeps_vacant(s, (index + 1) as nat, rank);
        },
        _ => {},
    }
}

proof fn lemma_finished_stays(s: SupervisorModel, n: nat)
    requires
        after_done(s, n).phase == Phase::Finished,
    ensures
        after_done(s, n + 1) == after_done(s, n),
    decreases n,
{
    if n > 0 {
        lemma_finished_stays(next(s, Event::Done), (n - 1) as nat);
    }
}

/// Every occupied rank is flagged at a position from `index` on and has
/// exhausted its restart budget.
pub open spec fn all_exhausted_from(s: SupervisorModel, index: nat) -> bool {
    forall|q: int|
        0 <= q < s.slots.len() && (#[trigger] s.slots[q]) is Some ==> {
            &&& s.slots[q]->0.restart_count >= s.settings.max_restarts
            &&& exists|j: int| index <= j < s.flagged.len() && s.flagged[j] == q
        }
}

/// Once every tracked rank has exhausted its restart budget and has been
/// flagged in a sweep, the loop finishes after at most one drop notice per
/// flagged rank: the table ends empty.
pub proof fn lemma_exhausted_sweep_finishes(s: SupervisorModel, index: nat)
    requires
        table_wf(s),
        index <= s.flagged.len(),
        all_exhausted_from(s, index),
    ensures
        after_done(restart_from(s, index), (s.flagged.len() - index) as nat).phase
            == Phase::Finished,
        all_vacant(after_done(restart_from(s, index), (s.flagged.len() - index) as nat).slots),
    decreases s.flagged.len() - index,
{
    let n = (s.flagged.len() - index) as nat;
    if index >= s.flagged.len() {
        assert(all_vacant(s.slots)) by {
            assert forall|q: int| 0 <= q < s.slots.len() implies s.slots[q] is None by {
                if s.slots[q] is Some {
                    assert(all_exhausted_from(s, index));
                }
            }
        }
    } else {
        let rank = s.flagged[index as int];
        match s.slots[rank as int] {
            Some(w) => {
                let s1 = SupervisorModel { slots: s.slots.update(rank as int, None), ..s };
                assert(all_exhausted_from(s1, index + 1)) by {
                    assert forall|q: int|
                        0 <= q < s1.slots.len() && (#[trigger] s1.slots[q]) is Some implies {
                            &&& s1.slots[q]->0.restart_count >= s1.settings.max_restarts
                            &&& exists|j: int| index + 1 <= j < s1.flagged.len() && s1.flagged[j] == q
                        } by {
                        assert(s.slots[q] is Some);
                        let j = choose|j: int| index <= j < s.flagged.len() && s.flagged[j] == q;
                        assert(j != index);
                    }
                }
                lemma_exhausted_sweep_finishes(s1, index + 1);
                let d = SupervisorModel { phase: Phase::Dropping { index: index as usize }, ..s1 };
                assert(restart_from(s, index) == d);
                lemma_restart_from_ignores_phase(d, s1, index + 1);
            },
            None => {
                assert(all_exhausted_from(s, index + 1)) by {
                    assert forall|q: int|
                        0 <= q < s.slots.len() && (#[trigger] s.slots[q]) is Some implies {
                            &&& s.slots[q]->0.restart_count >= s.settings.max_restarts
                            &&& exists|j: int| index + 1 <= j < s.flagged.len() && s.flagged[j] == q
                        } by {
                        let j = choose|j: int| index <= j < s.flagged.len() && s.flagged[j] == q;
                        assert(j != index);
                    }
                }
                lemma_exhausted_sweep_finishes(s, index + 1);
                lemma_finished_stays(restart_from(s, index + 1), (n - 1) as nat);
            },
        }
    }
}

/// What one tracked slot holds of the restart budget: its remaining relaunches
/// plus the one failure that drops it; nothing for a vacant slot.
pub open spec fn slot_budget(o: Option<WorkerRecord>, max_restarts: nat) -> nat {
    match o {
        Some(w) => if w.restart_count < max_restarts {
            (max_restarts - w.restart_count + 1) as nat
        } else {
            1
        },
        None => 0,
    }
}

/// The restart budget left in the whole table.
pub open spec fn budget_left(slots: Seq<Option<WorkerRecord>>, max_restarts: nat) -> nat
    decreases slots.len(),
{
    if slots.len() == 0 {
        0
    } else {
        budget_left(slots.drop_last(), max_restarts) + slot_budget(slots.last(), max_restarts)
    }
}

proof fn lemma_budget_update(
    slots: Seq<Option<WorkerRecord>>,
    i: int,
    o: Option<WorkerRecord>,
    max_restarts: nat,
)
    requires
        0 <= i < slots.len(),
    ensures
        budget_left(slots.update(i, o), max_restarts) + slot_budget(slots[i], max_restarts)
            == budget_left(slots, max_restarts) + slot_budget(o, max_restarts),
    decreases slots.len(),
{
    let u = slots.update(i, o);
    if i < slots.len() - 1 {
        assert(u.drop_last() =~= slots.drop_last().update(i, o));
        lemma_budget_update(slots.drop_last(), i, o, max_restarts);
    } else {
        assert(u.drop_last() =~= slots.drop_last());
    }
}

/// The budget left is zero exactly when no rank is tracked.
pub proof fn lemma_budget_zero_iff_vacant(slots: Seq<Option<WorkerRecord>>, max_restarts: nat)
    ensures
        budget_left(slots, max_restarts) == 0 <==> all_vacant(slots),
    decreases slots.len(),
{
    if slots.len() > 0 {
        lemma_budget_zero_iff_vacant(slots.drop_last(), max_restarts);
        if all_vacant(slots) {
            assert(all_vacant(slots.drop_last()));
        }
        if all_vacant(slots.drop_last()) && slots.last() is None {
            assert forall|r: int| 0 <= r < slots.len() implies slots[r] is None by {
                if r < slots.len() - 1 {
                    assert(slots.drop_last()[r] == slots[r]);
                }
            }
        }
    }
}

/// Every failure that restart handling reaches spends exactly one unit of the
/// budget left: a dropped rank gives up its last unit, and a relaunched rank
/// comes back with one relaunch fewer. Since the budget is zero exactly when
/// no rank is tracked, the loop ends after a bounded number of failures once
/// no worker stays healthy.
pub proof fn lemma_failure_spends_budget(s: SupervisorModel, index: nat)
    requires
        model_wf(s),
        index < s.flagged.len(),
        s.slots[s.flagged[index as int] as int] is Some,
    ensures
        ({
            let max = s.settings.max_restarts as nat;
            let rank = s.flagged[index as int];
            let count = s.slots[rank as int]->0.restart_count;
            let handled = restart_from(s, index);
            &&& handled.phase is Dropping ==> budget_left(handled.slots, max) + 1 == budget_left(
                s.slots,
                max,
            )
            &&& handled.phase is BackingOff ==> forall|x: WorkerRecord|
                x.restart_count == count + 1 ==> #[trigger] budget_left(
                    handled.slots.update(rank as int, Some(x)),
                    max,
                ) + 1 == budget_left(s.slots, max)
        }),
{
    let max = s.settings.max_restarts as nat;
    let rank = s.flagged[index as int];
    let handled = restart_from(s, index);
    lemma_budget_update(s.slots, rank as int, None, max);
    if handled.phase is BackingOff {
        assert forall|x: WorkerRecord|
            x.restart_count == s.slots[rank as int]->0.restart_count + 1 implies #[trigger] budget_left(
            handled.slots.update(rank as int, Some(x)),
            max,
        ) + 1 == budget_left(s.slots, max) by {
            lemma_budget_update(handled.slots, rank as int, Some(x), max);
        }
    }
}

proof fn lemma_restart_from_budget(s: SupervisorModel, index: nat)
    requires
        table_wf(s),
    ensures
        budget_left(restart_from(s, index).slots, s.settings.max_restarts as nat) <= budget_left(
            s.slots,
            s.settings.max_restarts as nat,
        ),
        restart_from(s, index).phase !is Starting,
    decreases s.flagged.len() - index,
{
    if index < s.flagged.len() {
        let rank = s.flagged[index as int];
        if s.slots[rank as int] is None {
            lemma_restart_from_budget(s, index + 1);
        } else {
            lemma_budget_update(s.slots, rank as int, None, s.settings.max_restarts as nat);
        }
    }
}

/// Once the pool is launched, no event raises the restart budget left in the
/// table: together with the unit that each handled failure spends, and the
/// budget being at most `world_size * (max_restarts + 1)`, the number of
/// failures that can be handled before the table is empty is bounded.
pub proof fn lemma_budget_never_grows(s: SupervisorModel, e: Event)
    requires
        model_wf(s),
        s.phase !is Starting,
    ensures
        next(s, e).phase !is Starting,
        budget_left(next(s, e).slots, s.settings.max_restarts as nat) <= budget_left(
            s.slots,
            s.settings.max_restarts as nat,
        ),
{
    let max = s.settings.max_restarts as nat;
    match s.phase {
        Phase::Waiting => {
            lemma_restart_from_budget(SupervisorModel { flagged: Seq::empty(), ..s }, 0);
        },
        Phase::Polling { rank: p } => {
            lemma_restart_from_budget(SupervisorModel { flagged: s.flagged.push(p), ..s }, 0);
        },
        Phase::Probing { .. } => {
            lemma_restart_from_budget(s, 0);
        },
        Phase::Terminating { rank: p } => {
            lemma_restart_from_budget(SupervisorModel { flagged: s.flagged.push(p), ..s }, 0);
        },
        Phase::Relaunching { index, restart_count } => {
            let f = s.flagged[index as int];
            let w = s.slots[f as int]->0;
            match e {
                Event::Launched { now_ms } => {
                    let x = Some(record_of(f, restart_count, now_ms));
                    let t = SupervisorModel { slots: s.slots.update(f as int, x), ..s };
                    lemma_budget_update(s.slots, f as int, x, max);
                    lemma_restart_from_budget(t, (index + 1) as nat);
                },
                Event::LaunchFailed => {
                    let x = Some(WorkerRecord { restart_count, ..w });
                    let t = SupervisorModel { slots: s.slots.update(f as int, x), ..s };
                    lemma_budget_update(s.slots, f as int, x, max);
                    lemma_restart_from_budget(t, (index + 1) as nat);
                },
                _ => {},
            }
        },
        Phase::Dropping { index } => {
            lemma_restart_from_budget(s, (index + 1) as nat);
        },
        _ => {},
    }
}

/// The budget left never exceeds `max_restarts + 1` per slot.
pub proof fn lemma_budget_bounded(slots: Seq<Option<WorkerRecord>>, max_restarts: nat)
    ensures
        budget_left(slots, max_restarts) <= slots.len() * (max_restarts + 1),
    decreases slots.len(),
{
    if slots.len() > 0 {
        lemma_budget_bounded(slots.drop_last(), max_restarts);
        let n = slots.len() as int;
        let m = max_restarts + 1;
        assert((n - 1) * m + m == n * m) by (nonlinear_arith);
    }
}

proof fn lemma_restart_from_keeps_or_clears(s: SupervisorModel, index: nat, rank: int)
    requires
        table_wf(s),
        0 <= rank < s.slots.len(),
    ensures
        restart_from(s, index).slots[rank] == s.slots[rank] || restart_from(
            s,
            index,
        ).slots[rank] is None,
    decreases s.flagged.len() - index,
{
    if index < s.flagged.len() && s.slots[s.flagged[index as int] as int] is None {
        lemma_restart_from_keeps_or_clears(s, index + 1, rank);
    }
}

/// Once the pool is launched, a tracked rank's restart count never goes down,
/// and it never exceeds the budget: each rank can be relaunched only a bounded
/// number of times before a failure drops it.
pub proof fn lemma_count_never_decreases(s: SupervisorModel, e: Event, rank: int)
    requires
        model_wf(s),
        s.phase !is Starting,
        0 <= rank < s.slots.len(),
        next(s, e).slots[rank] is Some,
    ensures
        s.slots[rank] is Some,
        next(s, e).slots[rank]->0.restart_count >= s.slots[rank]->0.restart_count,
        next(s, e).slots[rank]->0.restart_count <= s.settings.max_restarts,
{
    lemma_budget_never_grows(s, e);
    match s.phase {
        Phase::Waiting => {
            lemma_restart_from_keeps_or_clears(SupervisorModel { flagged: Seq::empty(), ..s }, 0, rank);
            lemma_restart_from_wf(SupervisorModel { flagged: Seq::empty(), ..s }, 0);
        },
        Phase::Polling { rank: p } => {
            let t = SupervisorModel { flagged: s.flagged.push(p), ..s };
            lemma_restart_from_keeps_or_clears(t, 0, rank);
            lemma_restart_from_wf(t, 0);
        },
        Phase::Probing { .. } => {
            lemma_restart_from_keeps_or_clears(s, 0, rank);
            lemma_restart_from_wf(s, 0);
        },
        Phase::Terminating { rank: p } => {
            let t = SupervisorModel { flagged: s.flagged.push(p), ..s };
            lemma_restart_from_keeps_or_clears(t, 0, rank);
            lemma_restart_from_wf(t, 0);
        },
        Phase::Relaunching { index, restart_count } => {
            let f = s.flagged[index as int];
            let w = s.slots[f as int]->0;
            match e {
                Event::Launched { now_ms } => {
                    let t = SupervisorModel {
                        slots: s.slots.update(f as int, Some(record_of(f, restart_count, now_ms))),
                        ..s
                    };
                    lemma_restart_from_keeps_or_clears(t, (index + 1) as nat, rank);
                    lemma_restart_from_wf(t, (index + 1) as nat);
                },
                Event::LaunchFailed => {
                    let t = SupervisorModel {
                        slots: s.slots.update(f as int, Some(WorkerRecord { restart_count, ..w })),
                        ..s
                    };
                    lemma_restart_from_keeps_or_clears(t, (index + 1) as nat, rank);
                    lemma_restart_from_wf(t, (index + 1) as nat);
                },
                _ => {},
            }
        },
        Phase::Dropping { index } => {
            lemma_restart_from_keeps_or_clears(s, (index + 1) as nat, rank);
            lemma_restart_from_wf(s, (index + 1) as nat);
        },
        _ => {},
    }
}

/// The phase belongs to restart handling.
pub open spec fn handling(s: SupervisorModel) -> bool {
    s.phase is BackingOff || s.phase is Relaunching || s.phase is Dropping
}

/// The driver's answer during restart handling when every relaunch starts at `now_ms`.
pub open spec fn relaunch_answer(s: SupervisorModel, now_ms: i64) -> Event {
    match s.phase {
        Phase::Relaunching { .. } => Event::Launched { now_ms },
        _ => Event::Done,
    }
}

/// Up to `n` answers to restart handling, stopping when handling is over.
pub open spec fn answer_handling(s: SupervisorModel, now_ms: i64, n: nat) -> SupervisorModel
    decreases n,
{
    if n == 0 || !handling(s) {
        s
    } else {
        answer_handling(next(s, relaunch_answer(s, now_ms)), now_ms, (n - 1) as nat)
    }
}

/// What restart handling makes of a failed rank's slot: a relaunched record
/// with the count plus one while the budget lasts, and nothing after.
pub open spec fn handled_slot(o: Option<WorkerRecord>, max_restarts: nat, now_ms: i64) -> Option<
    WorkerRecord,
> {
    match o {
        Some(w) => if w.restart_count < max_restarts {
            Some(record_of(w.rank, (w.restart_count + 1) as usize, now_ms))
        } else {
            None
        },
        None => None,
    }
}

proof fn lemma_answers_settled(s: SupervisorModel, now_ms: i64, n: nat)
    requires
        !handling(answer_handling(s, now_ms, n)),
    ensures
        answer_handling(s, now_ms, n + 1) == answer_handling(s, now_ms, n),
    decreases n,
{
    if n > 0 && handling(s) {
        lemma_answers_settled(next(s, relaunch_answer(s, now_ms)), now_ms, (n - 1) as nat);
    }
}

proof fn lemma_answers_settled_more(s: SupervisorModel, now_ms: i64, n: nat, m: nat)
    requires
        !handling(answer_handling(s, now_ms, n)),
        n <= m,
    ensures
        answer_handling(s, now_ms, m) == answer_handling(s, now_ms, n),
    decreases m - n,
{
    if n < m {
        lemma_answers_settled(s, now_ms, n);
        lemma_answers_settled_more(s, now_ms, n + 1, m);
    }
}

/// Restart handling over a sweep's flagged ranks, answered with successful
/// relaunches, ends after at most two answers per flagged rank. Then every
/// flagged rank whose count was below the budget holds a fresh record with the
/// count plus one, every flagged rank whose budget was spent is gone, and no
/// other rank is touched; the loop sleeps, or completes if the table is empty.
pub proof fn lemma_sweep_restarts(s: SupervisorModel, index: nat, now_ms: i64)
    requires
        table_wf(s),
        index <= s.flagged.len(),
    ensures
        ({
            let f = answer_handling(restart_from(s, index), now_ms, (2 * (s.flagged.len() - index)) as nat);
            &&& f.phase is Waiting || f.phase is Finished
            &&& f.flagged == s.flagged
            &&& f.slots.len() == s.slots.len()
            &&& forall|j: int|
                index <= j < s.flagged.len() ==> f.slots[#[trigger] s.flagged[j] as int]
                    == handled_slot(s.slots[s.flagged[j] as int], s.settings.max_restarts as nat, now_ms)
            &&& forall|r: int|
                0 <= r < s.slots.len() && (forall|j: int| index <= j < s.flagged.len() ==> s.flagged[j] != r)
                    ==> f.slots[r] == s.slots[r]
        }),
    decreases s.flagged.len() - index,
{
    let n = (2 * (s.flagged.len() - index)) as nat;
    let max = s.settings.max_restarts as nat;
    if index >= s.flagged.len() {
    } else {
        let rank = s.flagged[index as int];
        let rest = (2 * (s.flagged.len() - index - 1)) as nat;
        match s.slots[rank as int] {
            Some(w) => {
                if w.restart_count < s.settings.max_restarts {
                    let b = restart_from(s, index);
                    let r = next(b, Event::Done);
                    let t = SupervisorModel {
                        slots: r.slots.update(rank as int, Some(record_of(rank, (w.restart_count + 1) as usize, now_ms))),
                        ..r
                    };
                    lemma_sweep_restarts(t, index + 1, now_ms);
                    assert(b.phase == Phase::BackingOff { index: index as usize, restart_count: (w.restart_count + 1) as usize });
                    assert(r.phase == Phase::Relaunching { index: index as usize, restart_count: (w.restart_count + 1) as usize });
                    assert(next(r, Event::Launched { now_ms }) == restart_from(t, index + 1));
                    assert(answer_handling(b, now_ms, n) == answer_handling(r, now_ms, (n - 1) as nat));
                    assert(answer_handling(r, now_ms, (n - 1) as nat) == answer_handling(restart_from(t, index + 1), now_ms, rest));
                    assert forall|r2: int|
                        0 <= r2 < s.slots.len() && (forall|j: int| index <= j < s.flagged.len() ==> s.flagged[j] != r2)
                            implies answer_handling(b, now_ms, n).slots[r2] == s.slots[r2] by {
                        assert(s.flagged[index as int] != r2);
                    }
                } else {
                    let s1 = SupervisorModel { slots: s.slots.update(rank as int, None), ..s };
                    let d = restart_from(s, index);
                    lemma_sweep_restarts(s1, index + 1, now_ms);
                    lemma_restart_from_ignores_phase(d, s1, index + 1);
                    lemma_answers_settled_more(restart_from(s1, index + 1), now_ms, rest, (n - 1) as nat);
                    assert(answer_handling(d, now_ms, n) == answer_handling(restart_from(s1, index + 1), now_ms, (n - 1) as nat));
                    assert forall|r2: int|
                        0 <= r2 < s.slots.len() && (forall|j: int| index <= j < s.flagged.len() ==> s.flagged[j] != r2)
                            implies answer_handling(d, now_ms, n).slots[r2] == s.slots[r2] by {
                        assert(s.flagged[index as int] != r2);
                    }
                }
            },
            None => {
                lemma_sweep_restarts(s, index + 1, now_ms);
                lemma_answers_settled_more(restart_from(s, index + 1), now_ms, rest, n);
                assert forall|r2: int|
                    0 <= r2 < s.slots.len() && (forall|j: int| index <= j < s.flagged.len() ==> s.flagged[j] != r2)
                        implies answer_handling(restart_from(s, index), now_ms, n).slots[r2] == s.slots[r2] by {
                    assert(s.flagged[index as int] != r2);
                }
            },
        }
    }
}

/// Each sweep in which a rank fails costs that rank one unit of its own budget,
/// which starts at no more than `max_restarts + 1`: a rank that fails in every
/// sweep is gone after at most `max_restarts + 1` sweeps.
pub proof fn lemma_failed_sweep_spends_one(o: Option<WorkerRecord>, max_restarts: nat, now_ms: i64)
    requires
        o is Some,
        o->0.restart_count <= max_restarts <= usize::MAX,
    ensures
        slot_budget(handled_slot(o, max_restarts, now_ms), max_restarts) + 1 == slot_budget(
            o,
            max_restarts,
        ),
        slot_budget(o, max_restarts) <= max_restarts + 1,
{
}

/// The loop asks to complete only when no rank is tracked: while any rank
/// remains tracked, it goes on.
pub proof fn lemma_complete_only_when_empty(s: SupervisorModel)
    requires
        model_wf(s),
        pending(s) == Action::Complete,
    ensures
        all_vacant(s.slots),
{
}

impl Supervisor {
    pub open spec fn wf(&self) -> bool {
        model_wf(self@)
    }

    /// A supervisor for a job of the given settings, about to launch rank 0.
    pub fn new(settings: Settings) -> (r: Supervisor)
        ensures
            r.wf(),
            r@ == initial(settings),
    {
        let mut slots: Vec<Option<WorkerRecord>> = Vec::new();
        let mut r: usize = 0;
        while r < settings.world_size
            invariant
                r <= settings.world_size,
                slots@.len() == r,
                forall|q: int| 0 <= q < r ==> slots@[q] is None,
            decreases settings.world_size - r,
        {
            slots.push(None);
            r = r + 1;
        }
        let phase = if settings.world_size > 0 { Phase::Starting { rank: 0 } } else { Phase::Waiting };
        let s = Supervisor { settings, slots, flagged: Vec::new(), phase };
        assert(s@.slots =~= initial(settings).slots);
        assert(s@.flagged =~= initial(settings).flagged);
        s
    }

    /// The action that the current state asks for.
    pub fn pending_action(&self) -> (a: Action)
        requires
            self.wf(),
        ensures
            a == pending(self@),
    {
        match self.phase {
            Phase::Starting { rank } => Action::Launch { rank },
            Phase::Waiting => Action::Sleep { ms: POLL_INTERVAL_MS },
            Phase::Polling { rank } => Action::Poll { rank },
            Phase::Probing { rank } => Action::Probe { rank },
            Phase::Terminating { rank } => Action::Terminate { rank },
            Phase::BackingOff { index, restart_count } => Action::Backoff {
                rank: self.flagged[index],
                attempt: restart_count,
                ms: RESTART_BACKOFF_MS,
            },
            Phase::Relaunching { index, .. } => Action::Launch { rank: self.flagged[index] },
            Phase::Dropping { index } => Action::Drop { rank: self.flagged[index] },
            Phase::Finished => Action::Complete,
            Phase::Aborted { rank } => Action::Abort { rank },
        }
    }

    /// The record of `rank`, if that rank is tracked.
    pub fn record(&self, rank: usize) -> (r: Option<WorkerRecord>)
        ensures
            r == (if rank < self@.slots.len() { self@.slots[rank as int] } else { None }),
    {
        if rank < self.slots.len() {
            self.slots[rank]
        } else {
            None
        }
    }

    /// The tracked ranks, in increasing order.
    pub fn tracked_ranks(&self) -> (r: Vec<usize>)
        ensures
            forall|i: int, j: int| 0 <= i < j < r@.len() ==> r@[i] < r@[j],
            forall|q: int|
                0 <= q < self@.slots.len() ==> (self@.slots[q] is Some <==> r@.contains(q as usize)),
            forall|i: int| 0 <= i < r@.len() ==> #[trigger] r@[i] < self@.slots.len(),
    {
        let mut r: Vec<usize> = Vec::new();
        let mut q: usize = 0;
        while q < self.slots.len()
            invariant
                q <= self@.slots.len(),
                forall|i: int, j: int| 0 <= i < j < r@.len() ==> r@[i] < r@[j],
                forall|i: int| 0 <= i < r@.len() ==> #[trigger] r@[i] < q,
                forall|p: int| 0 <= p < q ==> (self@.slots[p] is Some <==> r@.contains(p as usize)),
            decreases self@.slots.len() - q,
        {
            let ghost r0 = r@;
            if self.slots[q].is_some() {
                r.push(q);
            }
            proof {
                assert forall|p: int| 0 <= p < q + 1 implies (self@.slots[p] is Some <==> r@.contains(
                    p as usize,
                )) by {
                    if r@.contains(p as usize) {
                        let i = choose|i: int| 0 <= i < r@.len() && r@[i] == p as usize;
                        if i < r0.len() {
                            assert(r0[i] == r@[i]);
                            assert(r0.contains(p as usize));
                        }
                    }
                    if p < q && r0.contains(p as usize) {
                        let i = choose|i: int| 0 <= i < r0.len() && r0[i] == p as usize;
                        assert(r@[i] == p as usize);
                    }
                    if p == q && self@.slots[p] is Some {
                        assert(r@[r@.len() - 1] == q);
                    }
                    if p == q && r0.contains(p as usize) {
                        let i = choose|i: int| 0 <= i < r0.len() && r0[i] == p as usize;
                        assert(r0[i] < q);
                    }
                }
            }
            q = q + 1;
        }
        r
    }

    /// The number of tracked ranks.
    pub fn tracked_count(&self) -> (n: usize)
        ensures
            n == self@.slots.filter(|o: Option<WorkerRecord>| o is Some).len(),
    {
        let mut n: usize = 0;
        let mut q: usize = 0;
        while q < self.slots.len()
            invariant
                q <= self@.slots.len(),
                n == self@.slots.take(q as int).filter(|o: Option<WorkerRecord>| o is Some).len(),
                n <= q,
            decreases self@.slots.len() - q,
        {
            proof {
                reveal_with_fuel(Seq::filter, 1);
                assert(self@.slots.take(q + 1).drop_last() =~= self@.slots.take(q as int));
            }
            if self.slots[q].is_some() {
                n = n + 1;
            }
            q = q + 1;
        }
        assert(self@.slots.take(q as int) =~= self@.slots);
        n
    }

    /// Where the supervisor stands.
    pub fn phase(&self) -> (p: Phase)
        ensures
            p == self@.phase,
    {
        self.phase
    }

    /// The parameters this supervisor runs with.
    pub fn settings(&self) -> (r: Settings)
        ensures
            r == self@.settings,
    {
        self.settings
    }

    /// The loop is over: no worker is tracked any more.
    pub fn is_finished(&self) -> (r: bool)
        ensures
            r == (self@.phase is Finished),
    {
        match self.phase {
            Phase::Finished => true,
            _ => false,
        }
    }

    fn all_vacant(&self) -> (r: bool)
        ensures
            r == all_vacant(self@.slots),
    {
        let mut i: usize = 0;
        while i < self.slots.len()
            invariant
                i <= self.slots@.len(),
                forall|q: int| 0 <= q < i ==> self.slots@[q] is None,
            decreases self.slots@.len() - i,
        {
            if self.slots[i].is_some() {
                return false;
            }
            i = i + 1;
        }
        true
    }

    fn restart_from(&mut self, index: usize)
        requires
            table_wf(old(self)@),
            index <= old(self)@.flagged.len(),
        ensures
            final(self)@ == restart_from(old(self)@, index as nat),
    {
        let mut i: usize = index;
        loop
            invariant
                table_wf(self@),
                index <= i <= self@.flagged.len(),
                restart_from(self@, i as nat) == restart_from(old(self)@, index as nat),
            decreases self@.flagged.len() - i,
        {
            if i >= self.flagged.len() {
                self.phase = if self.all_vacant() { Phase::Finished } else { Phase::Waiting };
                return;
            }
            let rank = self.flagged[i];
            match self.slots[rank] {
                Some(w) => {
                    if w.restart_count < self.settings.max_restarts {
                        self.phase = Phase::BackingOff { index: i, restart_count: w.restart_count + 1 };
                    } else {
                        self.slots.set(rank, None);
                        self.phase = Phase::Dropping { index: i };
                    }
                    return;
                },
                None => {
                    i = i + 1;
                },
            }
        }
    }

    /// Takes in what happened to the pending action and returns the next one.
    /// The state moves as `next` says; the action is the one the new state asks for.
    pub fn step(&mut self, event: Event) -> (a: Action)
        requires
            old(self).wf(),
        ensures
            final(self).wf(),
            final(self)@ == next(old(self)@, event),
            a == pending(final(self)@),
    {
        match self.phase {
            Phase::Starting { rank } => match event {
                Event::Launched { now_ms } => {
                    self.slots.set(rank, Some(WorkerRecord { rank, restart_count: 0, last_heartbeat_ms: now_ms }));
                    self.phase = if rank + 1 < self.settings.world_size {
                        Phase::Starting { rank: rank + 1 }
                    } else {
                        Phase::Waiting
                    };
                },
                Event::LaunchFailed => {
                    self.phase = Phase::Aborted { rank };
                },
                _ => {},
            },
            Phase::Waiting => match event {
                Event::Done => {
                    self.flagged = Vec::new();
                    self.scan_from(0);
                },
                _ => {},
            },
            Phase::Polling { rank } => match event {
                Event::Polled { status } => match status {
                    ProcessStatus::Running => {
                        self.phase = Phase::Probing { rank };
                    },
                    _ => {
                        self.flag_and_continue(rank);
                    },
                },
                _ => {},
            },
            Phase::Probing { rank } => match event {
                Event::Probed { reading, now_ms } => {
                    if is_alive(&reading, now_ms, self.settings.heartbeat_timeout_ms) {
                        self.scan_from(rank + 1);
                    } else {
                        self.phase = Phase::Terminating { rank };
                    }
                },
                _ => {},
            },
            Phase::Terminating { rank } => match event {
                Event::Done => {
                    self.flag_and_continue(rank);
                },
                _ => {},
            },
            Phase::BackingOff { index, restart_count } => match event {
                Event::Done => {
                    self.phase = Phase::Relaunching { index, restart_count };
                },
                _ => {},
            },
            Phase::Relaunching { index, restart_count } => match event {
                Event::Launched { now_ms } => {
                    let rank = self.flagged[index];
                    self.slots.set(rank, Some(WorkerRecord { rank, restart_count, last_heartbeat_ms: now_ms }));
                    proof {
                        lemma_restart_from_wf(self@, (index + 1) as nat);
                    }
                    self.restart_from(index + 1);
                },
                Event::LaunchFailed => {
                    let rank = self.flagged[index];
                    if let Some(w) = self.slots[rank] {
                        self.slots.set(rank, Some(WorkerRecord { restart_count, ..w }));
                    }
                    proof {
                        lemma_restart_from_wf(self@, (index + 1) as nat);
                    }
                    self.restart_from(index + 1);
                },
                _ => {},
            },
            Phase::Dropping { index } => match event {
                Event::Done => {
                    proof {
                        lemma_restart_from_wf(self@, (index + 1) as nat);
                    }
                    self.restart_from(index + 1);
                },
                _ => {},
            },
            Phase::Finished => {},
            Phase::Aborted { .. } => {},
        }
        self.pending_action()
    }

    fn flag_and_continue(&mut self, rank: usize)
        requires
            table_wf(old(self)@),
            rank < old(self)@.settings.world_size,
            flagged_below(old(self)@, rank as nat),
        ensures
            final(self)@ == scan_from(
                SupervisorModel { flagged: old(self)@.flagged.push(rank), ..old(self)@ },
                (rank + 1) as nat,
            ),
            model_wf(final(self)@),
    {
        self.flagged.push(rank);
        assert(flagged_below(self@, (rank + 1) as nat));
        self.scan_from(rank + 1);
    }

    fn scan_from(&mut self, from: usize)
        requires
            table_wf(old(self)@),
            flagged_below(old(self)@, from as nat),
            from <= old(self)@.settings.world_size,
        ensures
            final(self)@ == scan_from(old(self)@, from as nat),
            model_wf(final(self)@),
    {
        proof {
            lemma_next_occupied(self@.slots, from as nat);
        }
        let mut r: usize = from;
        while r < self.slots.len()
            invariant
                self@ == old(self)@,
                table_wf(self@),
                flagged_below(self@, from as nat),
                from <= r <= self@.slots.len(),
                next_occupied(self@.slots, from as nat) == next_occupied(self@.slots, r as nat),
            decreases self@.slots.len() - r,
        {
            if self.slots[r].is_some() {
                self.phase = Phase::Polling { rank: r };
                assert(flagged_below(self@, r as nat));
                return;
            }
            r = r + 1;
        }
        proof {
            lemma_restart_from_wf(self@, 0);
        }
        self.restart_from(0);
    }
}

} // verus!
