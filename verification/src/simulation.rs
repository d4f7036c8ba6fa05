//! The scheduling simulation: tasks arrive by arrival time into the FIFO
//! queue, are registered in the hash table, move from the queue into the
//! ready heap, and the most urgent ready task is run to completion, the
//! clock advancing by its duration; when nothing is ready the clock jumps
//! to the next arrival.  What happens is recorded as a list of events; a
//! run whose clock or totals would leave the `i32` range stops with an
//! `Overflow` event.

use vstd::prelude::*;
use crate::task::{
    Task, MAX_TASKS, ST_QUEUED, ST_READY, ST_RUNNING, ST_DONE, rank_of, abs_deadline_of,
    sort_by_arrival, is_stable_sort_by_arrival, stable_rearrangement, sorted_len,
};
use crate::queue::Queue;
use crate::heap::{Heap, HeapEntry, more_urgent, is_most_urgent_in};
use crate::hashtable::{HashTable, TableInsert, POOL_SIZE, with_status};
use crate::fsm::{Fsm, STATE_IDLE, STATE_READY, STATE_RUNNING, STATE_SHUTDOWN, allowed_transition};
use crate::metrics::{Metrics, recorded};

verus! {

/// Something that happened during the simulation.
#[derive(Clone, Copy)]
pub enum SimEvent {
    /// `task` starts running at `time`.
    Started { time: i32, task: Task },
    /// Task `id` finishes at `time`, after its absolute deadline when `missed`.
    Finished { time: i32, id: i32, missed: bool },
    /// The arrival queue was full when task `id` arrived.
    QueueFull { id: i32 },
    /// A task with id `id` was already registered.
    DuplicateId { id: i32 },
    /// The hash table had no free slot for task `id`.
    PoolFull { id: i32 },
    /// The ready heap was full when task `id` became ready.
    HeapFull { id: i32 },
    /// The state machine refused the move from `from` to `to`.
    BadTransition { from: i32, to: i32 },
    /// Running the task started just before would take the clock, its
    /// wait or a running total out of the `i32` range; the run stops here.
    Overflow,
}

/// Result of a simulation: the events in order, the counters, and the final
/// state of the state machine.
pub struct SimReport {
    pub events: Vec<SimEvent>,
    pub metrics: Metrics,
    pub final_state: i32,
}

/// The heap entry of a task: rank, absolute deadline, duration, arrival
/// order and id.
pub open spec fn entry_of(t: Task) -> HeapEntry {
    HeapEntry {
        rank: rank_of(t.priority) as i32,
        deadline: abs_deadline_of(t) as i32,
        duration: t.duration,
        order: t.order,
        task_id: t.id,
    }
}

/// The values of `t` the simulation computes with before running it fit
/// in `i32` (its rank and absolute deadline), and its duration is not
/// negative, so the clock never runs backwards.
pub open spec fn task_fits(t: Task) -> bool {
    &&& 0 <= t.duration
    &&& rank_of(t.priority) <= i32::MAX
    &&& i32::MIN <= abs_deadline_of(t) <= i32::MAX
}

/// The input the simulation accepts: at most `MAX_TASKS` tasks, each with
/// rank and absolute deadline within `i32` and a duration that is not
/// negative (`task_fits`), as the loader and the generator make them.
pub open spec fn simulation_input_ok(s: Seq<Task>, n: int) -> bool {
    &&& 0 <= n <= MAX_TASKS
    &&& n <= s.len()
    &&& forall|k: int| 0 <= k < n ==> task_fits(#[trigger] s[k])
}

/// The first `n` tasks have distinct, positive ids.
pub open spec fn ids_distinct_positive(s: Seq<Task>, n: int) -> bool {
    &&& forall|k: int| 0 <= k < n ==> #[trigger] s[k].id > 0
    &&& forall|a: int, b: int| 0 <= a < b < n ==> #[trigger] s[a].id != #[trigger] s[b].id
}

/// No task that had arrived by the time another started is more urgent
/// than it and started later.
pub open spec fn urgency_respected(evs: Seq<SimEvent>) -> bool {
    forall|a: int, b: int|
        0 <= a < b < evs.len() ==> match (#[trigger] evs[a], #[trigger] evs[b]) {
            (SimEvent::Started { time: ta, task: x }, SimEvent::Started { time: tb, task: y }) =>
                y.arrival <= ta ==> !more_urgent(entry_of(y), entry_of(x)),
            _ => true,
        }
}

/// One task at a time: a task starts only after every earlier started
/// task has finished.
pub open spec fn runs_do_not_overlap(evs: Seq<SimEvent>) -> bool {
    forall|a: int, b: int|
        0 <= a < b < evs.len() ==> match (#[trigger] evs[a], #[trigger] evs[b]) {
            (SimEvent::Started { time: ta, task: x }, SimEvent::Started { time: tb, task: y }) =>
                ta + x.duration <= tb,
            _ => true,
        }
}

/// When the task that ran before event `a` finished (0 before any start).
pub open spec fn end_before(evs: Seq<SimEvent>, a: int) -> int
    decreases a,
{
    if a <= 0 {
        0
    } else {
        match evs[a - 1] {
            SimEvent::Started { time, task } => time + task.duration,
            _ => end_before(evs, a - 1),
        }
    }
}

/// The processor idles only while nothing has arrived: a start later than
/// the end of the previous run is at a time no task started from then on
/// had arrived before.
pub open spec fn idle_only_when_nothing_arrived(evs: Seq<SimEvent>) -> bool {
    forall|a: int, c: int|
        0 <= a < c < evs.len() ==> match (#[trigger] evs[a], #[trigger] evs[c]) {
            (SimEvent::Started { time: ta, task: x }, SimEvent::Started { time: tc, task: y }) =>
                ta > end_before(evs, a) ==> y.arrival >= ta,
            _ => true,
        }
}

/// A start that comes after an idle spell is at the arrival time of the
/// task started: the processor waits for exactly that arrival.
pub open spec fn idle_start_at_arrival(evs: Seq<SimEvent>) -> bool {
    forall|a: int|
        0 <= a < evs.len() ==> match #[trigger] evs[a] {
            SimEvent::Started { time, task } => time > end_before(evs, a) ==> task.arrival == time,
            _ => true,
        }
}

/// No two starts are of tasks with the same id.
pub open spec fn starts_distinct(evs: Seq<SimEvent>) -> bool {
    forall|a: int, b: int|
        0 <= a < b < evs.len() ==> match (#[trigger] evs[a], #[trigger] evs[b]) {
            (SimEvent::Started { task: x, .. }, SimEvent::Started { task: y, .. }) => x.id != y.id,
            _ => true,
        }
}

/// Some start in `evs` is of the task with id `id`.
pub open spec fn runs_task(evs: Seq<SimEvent>, id: i32) -> bool {
    exists|a: int| 0 <= a < evs.len() && (#[trigger] evs[a] matches SimEvent::Started { task, .. } && task.id == id)
}

/// Start `a` is the one urgency and arrivals call for: no input task that
/// had not started before it and had arrived by its time is more urgent
/// than the task started, and when the processor was idle before it, no
/// input task that had not started before arrives earlier than it.
pub open spec fn start_follows_inputs(evs: Seq<SimEvent>, s: Seq<Task>, n: int, a: int) -> bool {
    evs[a] matches SimEvent::Started { time: ta, task: x } ==> {
        &&& forall|j: int|
            0 <= j < n && !runs_task(evs.take(a), (#[trigger] s[j]).id) && s[j].arrival <= ta ==> !more_urgent(
                entry_of(s[j]),
                entry_of(x),
            )
        &&& ta > end_before(evs, a) ==> forall|j: int|
            0 <= j < n && !runs_task(evs.take(a), (#[trigger] s[j]).id) ==> s[j].arrival >= ta
    }
}

/// What the events of every run satisfy: each start is of one of the `n`
/// input tasks `s` (up to its status), after it arrived; runs do not
/// overlap; a finish only comes right after the start of its task; no
/// transition is refused and no overflow is among them.
pub open spec fn schedule_sound(evs: Seq<SimEvent>, s: Seq<Task>, n: int) -> bool {
    &&& runs_do_not_overlap(evs)
    &&& finishes_paired(evs)
    &&& forall|k: int| 0 <= k < evs.len() ==> !(#[trigger] evs[k] is BadTransition) && !(evs[k] is Overflow)
    &&& forall|k: int|
        0 <= k < evs.len() ==> (#[trigger] evs[k] matches SimEvent::Started { time, task }
            ==> task.arrival <= time && exists|j: int| 0 <= j < n && same_task_but_status(task, #[trigger] s[j]))
}

/// What the events satisfy besides when the input ids are distinct and
/// positive: nothing is refused, no task starts twice, and every start is
/// the one urgency and arrivals call for.
pub open spec fn schedule_urgent(evs: Seq<SimEvent>, s: Seq<Task>, n: int) -> bool {
    &&& forall|k: int| 0 <= k < evs.len() ==> !is_failure(#[trigger] evs[k])
    &&& starts_distinct(evs)
    &&& urgency_respected(evs)
    &&& idle_only_when_nothing_arrived(evs)
    &&& idle_start_at_arrival(evs)
    &&& forall|a: int| 0 <= a < evs.len() ==> #[trigger] start_follows_inputs(evs, s, n, a)
}

/// `schedule_urgent`, kept opaque inside the simulation's invariant: only
/// the steps that add a start look inside.
#[verifier::opaque]
spec fn events_urgent(evs: Seq<SimEvent>, s: Seq<Task>, n: int) -> bool {
    schedule_urgent(evs, s, n)
}

/// The ids of the tasks started in `evs`, in order.
spec fn started_ids(evs: Seq<SimEvent>) -> Seq<i32>
    decreases evs.len(),
{
    if evs.len() == 0 {
        Seq::empty()
    } else {
        let r = started_ids(evs.drop_last());
        match evs.last() {
            SimEvent::Started { task, .. } => r.push(task.id),
            _ => r,
        }
    }
}

proof fn lemma_started_ids(evs: Seq<SimEvent>)
    ensures
        started_ids(evs).len() == tally(evs).0,
        forall|i: int| 0 <= i < started_ids(evs).len() ==> runs_task(evs, #[trigger] started_ids(evs)[i]),
        starts_distinct(evs) ==> started_ids(evs).no_duplicates(),
    decreases evs.len(),
{
    if evs.len() > 0 {
        let pre = evs.drop_last();
        let last = evs.len() - 1;
        lemma_started_ids(pre);
        let ids = started_ids(evs);
        let pids = started_ids(pre);
        assert(evs[last] == evs.last());
        assert forall|i: int| 0 <= i < ids.len() implies runs_task(evs, #[trigger] ids[i]) by {
            if i < pids.len() {
                assert(ids[i] == pids[i]);
                assert(runs_task(pre, pids[i]));
                let a = choose|a: int| 0 <= a < pre.len() && (#[trigger] pre[a] matches SimEvent::Started { task, .. } && task.id == pids[i]);
                assert(evs[a] == pre[a]);
            }
        }
        if starts_distinct(evs) {
            assert forall|a: int, b: int| 0 <= a < b < pre.len() implies match (#[trigger] pre[a], #[trigger] pre[b]) {
                (SimEvent::Started { task: x, .. }, SimEvent::Started { task: y, .. }) => x.id != y.id,
                _ => true,
            } by {
                assert(evs[a] == pre[a]);
                assert(evs[b] == pre[b]);
            }
            if let SimEvent::Started { task: y, .. } = evs.last() {
                assert forall|i: int| 0 <= i < pids.len() implies #[trigger] pids[i] != y.id by {
                    assert(runs_task(pre, pids[i]));
                    let a = choose|a: int| 0 <= a < pre.len() && (#[trigger] pre[a] matches SimEvent::Started { task, .. } && task.id == pids[i]);
                    assert(evs[a] == pre[a]);
                }
                assert(ids == pids.push(y.id));
                assert forall|i: int, j: int| 0 <= i < ids.len() && 0 <= j < ids.len() && i != j implies ids[i] != ids[j] by {
                    if i < pids.len() && j < pids.len() {
                        assert(ids[i] == pids[i]);
                        assert(ids[j] == pids[j]);
                    } else if i < pids.len() {
                        assert(ids[i] == pids[i]);
                    } else {
                        assert(ids[j] == pids[j]);
                    }
                }
            }
        }
    }
}

/// Pigeonhole: as many distinct started ids as distinct input ids, each of
/// them an input id, cover every input id.
proof fn lemma_every_id_started(started: Seq<i32>, ids: Seq<i32>)
    requires
        started.no_duplicates(),
        ids.no_duplicates(),
        started.len() == ids.len(),
        forall|i: int| 0 <= i < started.len() ==> ids.contains(#[trigger] started[i]),
    ensures
        forall|j: int| 0 <= j < ids.len() ==> started.contains(#[trigger] ids[j]),
{
    broadcast use vstd::seq_lib::seq_to_set_is_finite;
    started.unique_seq_to_set();
    ids.unique_seq_to_set();
    let a = started.to_set();
    let b = ids.to_set();
    assert forall|x: i32| a.contains(x) implies b.contains(x) by {
        let i = choose|i: int| 0 <= i < started.len() && started[i] == x;
        assert(ids.contains(started[i]));
    }
    vstd::set_lib::lemma_subset_equality(a, b);
    assert forall|j: int| 0 <= j < ids.len() implies started.contains(#[trigger] ids[j]) by {
        assert(b.contains(ids[j]));
        assert(a.contains(ids[j]));
    }
}

/// Appending the finish of the last start keeps the laws of the events.
proof fn lemma_laws_push_finish(w: Seq<SimEvent>, f: SimEvent, s: Seq<Task>, n: int)
    requires
        w.len() > 0,
        w.last() is Started,
        f == finish_of(w.last()),
        schedule_sound(w, s, n),
    ensures
        schedule_sound(w.push(f), s, n),
        schedule_urgent(w, s, n) ==> schedule_urgent(w.push(f), s, n),
{
    let evs = w.push(f);
    let l = w.len() as int;
    assert(evs[l] == f);
    assert(w[l - 1] == w.last());
    assert forall|k: int| 0 <= k < l implies #[trigger] evs[k] == w[k] by {}
    assert forall|a: int| 0 <= a <= l implies #[trigger] end_before(evs, a) == end_before(w, a) by {
        lemma_end_before_prefix(w, evs, a);
    }
    assert forall|a: int| 0 <= a <= l implies #[trigger] evs.take(a) == w.take(a) by {
        assert(evs.take(a) =~= w.take(a));
    }
    assert forall|a: int, b: int| 0 <= a < b < evs.len() implies match (#[trigger] evs[a], #[trigger] evs[b]) {
        (SimEvent::Started { time: ta, task: x }, SimEvent::Started { time: tb, task: y }) => ta + x.duration <= tb,
        _ => true,
    } by {
        if b < l {
            assert(evs[a] == w[a] && evs[b] == w[b]);
        }
    }
    assert forall|k: int| 0 <= k < evs.len() && #[trigger] evs[k] is Finished implies k > 0 && evs[k - 1] is Started
        && evs[k] == finish_of(evs[k - 1]) by {
        if k < l {
            assert(evs[k] == w[k]);
            assert(evs[k - 1] == w[k - 1]);
        } else {
            assert(evs[k - 1] == w[l - 1]);
        }
    }
    assert forall|k: int| 0 <= k < evs.len() implies (#[trigger] evs[k] matches SimEvent::Started { time, task }
        ==> task.arrival <= time && exists|j: int| 0 <= j < n && same_task_but_status(task, #[trigger] s[j])) by {
        if k < l {
            assert(evs[k] == w[k]);
        }
    }
    if schedule_urgent(w, s, n) {
        assert forall|k: int| 0 <= k < evs.len() implies !is_failure(#[trigger] evs[k]) by {
            if k < l {
                assert(evs[k] == w[k]);
            }
        }
        assert forall|a: int, b: int| 0 <= a < b < evs.len() implies match (#[trigger] evs[a], #[trigger] evs[b]) {
            (SimEvent::Started { task: x, .. }, SimEvent::Started { task: y, .. }) => x.id != y.id,
            _ => true,
        } by {
            if b < l {
                assert(evs[a] == w[a] && evs[b] == w[b]);
            }
        }
        assert forall|a: int, b: int| 0 <= a < b < evs.len() implies match (#[trigger] evs[a], #[trigger] evs[b]) {
            (SimEvent::Started { time: ta, task: x }, SimEvent::Started { time: tb, task: y }) =>
                y.arrival <= ta ==> !more_urgent(entry_of(y), entry_of(x)),
            _ => true,
        } by {
            if b < l {
                assert(evs[a] == w[a] && evs[b] == w[b]);
            }
        }
        assert forall|a: int, c: int| 0 <= a < c < evs.len() implies match (#[trigger] evs[a], #[trigger] evs[c]) {
            (SimEvent::Started { time: ta, task: x }, SimEvent::Started { time: tc, task: y }) =>
                ta > end_before(evs, a) ==> y.arrival >= ta,
            _ => true,
        } by {
            if c < l {
                assert(evs[a] == w[a] && evs[c] == w[c]);
            }
        }
        assert forall|a: int| 0 <= a < evs.len() implies match #[trigger] evs[a] {
            SimEvent::Started { time, task } => time > end_before(evs, a) ==> task.arrival == time,
            _ => true,
        } by {
            if a < l {
                assert(evs[a] == w[a]);
            }
        }
        assert forall|a: int| 0 <= a < evs.len() implies #[trigger] start_follows_inputs(evs, s, n, a) by {
            if a < l {
                assert(evs[a] == w[a]);
                assert(start_follows_inputs(w, s, n, a));
            }
        }
    }
}

/// With distinct input ids, `n` starts of distinct input tasks include a
/// start of every input task.
proof fn lemma_all_started(evs: Seq<SimEvent>, s: Seq<Task>, n: int)
    requires
        0 <= n <= s.len(),
        ids_distinct_positive(s, n),
        tally(evs).0 == n,
        starts_distinct(evs),
        forall|k: int|
            0 <= k < evs.len() ==> (#[trigger] evs[k] matches SimEvent::Started { task, .. } ==> exists|j: int|
                0 <= j < n && same_task_but_status(task, #[trigger] s[j])),
    ensures
        forall|j: int| 0 <= j < n ==> runs_task(evs, (#[trigger] s[j]).id),
{
    lemma_started_ids(evs);
    let started = started_ids(evs);
    let ids = Seq::new(n as nat, |j: int| s[j].id);
    assert forall|i: int, j: int| 0 <= i < ids.len() && 0 <= j < ids.len() && i != j implies ids[i] != ids[j] by {
        if i < j {
            assert(s[i].id != s[j].id);
        } else {
            assert(s[j].id != s[i].id);
        }
    }
    assert forall|i: int| 0 <= i < started.len() implies ids.contains(#[trigger] started[i]) by {
        assert(runs_task(evs, started[i]));
        let a = choose|a: int| 0 <= a < evs.len() && (#[trigger] evs[a] matches SimEvent::Started { task, .. } && task.id == started[i]);
        if let SimEvent::Started { task, .. } = evs[a] {
            let j = choose|j: int| 0 <= j < n && same_task_but_status(task, #[trigger] s[j]);
            assert(ids[j] == started[i]);
        }
    }
    lemma_every_id_started(started, ids);
    assert forall|j: int| 0 <= j < n implies runs_task(evs, (#[trigger] s[j]).id) by {
        assert(started.contains(ids[j]));
        let i = choose|i: int| 0 <= i < started.len() && started[i] == ids[j];
        assert(runs_task(evs, started[i]));
    }
}

proof fn lemma_end_before_le(evs: Seq<SimEvent>, a: int, c: int)
    requires
        0 <= c,
        a <= evs.len(),
        forall|k: int| 0 <= k < evs.len() ==> (#[trigger] evs[k] matches SimEvent::Started { time, task }
            ==> time + task.duration <= c),
    ensures
        end_before(evs, a) <= c,
    decreases a,
{
    if a > 0 {
        lemma_end_before_le(evs, a - 1, c);
    }
}

proof fn lemma_end_before_prefix(evs: Seq<SimEvent>, more: Seq<SimEvent>, a: int)
    requires
        evs.is_prefix_of(more),
        a <= evs.len(),
    ensures
        end_before(more, a) == end_before(evs, a),
    decreases a,
{
    if a > 0 {
        assert(more[a - 1] == evs[a - 1]);
        lemma_end_before_prefix(evs, more, a - 1);
    }
}

/// An event that reports a refusal or a lack of room.
pub open spec fn is_failure(ev: SimEvent) -> bool {
    !(ev is Started || ev is Finished)
}

/// Running totals over the events: starts, sum of waits (start minus
/// arrival), sum of durations started, finishes past their deadline, and
/// longest wait (0 when none).
pub open spec fn tally(evs: Seq<SimEvent>) -> (nat, int, int, nat, int)
    decreases evs.len(),
{
    if evs.len() == 0 {
        (0, 0, 0, 0, 0)
    } else {
        let t = tally(evs.drop_last());
        match evs.last() {
            SimEvent::Started { time, task } => {
                let w = time - task.arrival;
                (t.0 + 1, t.1 + w, t.2 + task.duration, t.3, if w > t.4 { w } else { t.4 })
            },
            SimEvent::Finished { missed, .. } => (t.0, t.1, t.2, if missed { t.3 + 1 } else { t.3 }, t.4),
            _ => t,
        }
    }
}

/// `x` lies in the range of `i32`.
pub open spec fn fits_i32(x: int) -> bool {
    i32::MIN <= x <= i32::MAX
}

/// When the last event of `evs` is a start, the arithmetic of running that
/// task stays within `i32`: its wait, its finish time, and the totals of
/// waits and of durations over `evs`.
pub open spec fn run_fits(evs: Seq<SimEvent>) -> bool {
    evs.len() > 0 ==> match evs.last() {
        SimEvent::Started { time, task } => {
            let t = tally(evs);
            &&& fits_i32(time - task.arrival)
            &&& fits_i32(time + task.duration)
            &&& fits_i32(t.1)
            &&& fits_i32(t.2)
        },
        _ => true,
    }
}

/// Every start in `evs` runs within `i32`, counting the events up to it.
pub open spec fn starts_fit(evs: Seq<SimEvent>) -> bool {
    forall|k: int| 0 <= k < evs.len() ==> (#[trigger] evs[k] is Started ==> run_fits(evs.take(k + 1)))
}

/// The events end in an overflow.
pub open spec fn overflowed(evs: Seq<SimEvent>) -> bool {
    evs.len() > 0 && evs.last() is Overflow
}

/// The run stopped on an overflow: the last event is `Overflow`, right after
/// the start whose arithmetic leaves `i32`, and every earlier start fits.
pub open spec fn stopped_on_overflow(evs: Seq<SimEvent>) -> bool {
    &&& evs.len() >= 2
    &&& evs.last() is Overflow
    &&& evs[evs.len() - 2] is Started
    &&& !run_fits(evs.take(evs.len() - 1))
    &&& starts_fit(evs.take(evs.len() - 2))
}

proof fn lemma_starts_fit_extend(a: Seq<SimEvent>, b: Seq<SimEvent>)
    requires
        a.is_prefix_of(b),
        starts_fit(a),
        forall|k: int| a.len() <= k < b.len() ==> (#[trigger] b[k] is Started ==> run_fits(b.take(k + 1))),
    ensures
        starts_fit(b),
{
    assert forall|k: int| 0 <= k < b.len() && #[trigger] b[k] is Started implies run_fits(b.take(k + 1)) by {
        if k < a.len() {
            assert(b.take(k + 1) =~= a.take(k + 1));
            assert(b[k] == a[k]);
        }
    }
}

/// Whether `x` lies in the range of `i32`.
fn fits_in_i32(x: i64) -> (r: bool)
    ensures
        r == fits_i32(x as int),
{
    (i32::MIN as i64) <= x && x <= (i32::MAX as i64)
}

/// The finish that goes with a start.
pub open spec fn finish_of(ev: SimEvent) -> SimEvent {
    match ev {
        SimEvent::Started { time, task } => SimEvent::Finished {
            time: (time + task.duration) as i32,
            id: task.id,
            missed: time + task.duration > abs_deadline_of(task),
        },
        _ => ev,
    }
}

/// The event after a start at `k` is its finish.
pub open spec fn followed_by_finish(evs: Seq<SimEvent>, k: int) -> bool {
    evs[k] is Started ==> k + 1 < evs.len() && evs[k + 1] == finish_of(evs[k])
}

/// Every finish directly follows the start of its task.
pub open spec fn finishes_paired(evs: Seq<SimEvent>) -> bool {
    forall|k: int|
        0 <= k < evs.len() ==> (#[trigger] evs[k] is Finished ==> k > 0 && evs[k - 1] is Started && evs[k]
            == finish_of(evs[k - 1]))
}

/// Every start is directly followed by its finish.
pub open spec fn starts_paired(evs: Seq<SimEvent>) -> bool {
    forall|k: int| 0 <= k < evs.len() ==> #[trigger] followed_by_finish(evs, k)
}

proof fn lemma_tally_push(evs: Seq<SimEvent>, e: SimEvent)
    ensures
        tally(evs.push(e)) == ({
            let t = tally(evs);
            match e {
                SimEvent::Started { time, task } => {
                    let w = time - task.arrival;
                    (t.0 + 1, t.1 + w, t.2 + task.duration, t.3, if w > t.4 { w } else { t.4 })
                },
                SimEvent::Finished { missed, .. } => (t.0, t.1, t.2, if missed { t.3 + 1 } else { t.3 }, t.4),
                _ => t,
            }
        }),
{
    assert(evs.push(e).drop_last() =~= evs);
}

/// The state of a running simulation.
struct Simulation {
    queue: Queue,
    ready: Heap,
    table: HashTable,
    fsm: Fsm,
    stats: Metrics,
    clock: i32,
    pending: usize,
    events: Vec<SimEvent>,
}

/// `t` is input task `k` with possibly another status.
pub open spec fn same_task_but_status(t: Task, u: Task) -> bool {
    t == Task { status: t.status, ..u }
}

impl Simulation {
    /// The record stored under `id` is sound: it carries that id, fits the
    /// bounds, has arrived, and is one of the arrived input tasks.
    spec fn record_ok(&self, id: i32, s: Seq<Task>) -> bool {
        let t = self.table@[id];
        &&& t.id == id
        &&& task_fits(t)
        &&& t.arrival <= self.clock
        &&& exists|k: int| 0 <= k < self.pending && s[k].id == id && same_task_but_status(t, s[k])
    }

    /// A `Started` event is sound: the task had arrived, the event is not in
    /// the future, and the task is one of the input tasks.
    spec fn started_ok(&self, ev: SimEvent, s: Seq<Task>, n: int) -> bool {
        ev matches SimEvent::Started { time, task } ==> {
            &&& task.arrival <= time
            &&& time + task.duration <= self.clock
            &&& exists|k: int| 0 <= k < n && same_task_but_status(task, #[trigger] s[k])
        }
    }

    spec fn counters_ok(&self, n: int) -> bool {
        let m = self.stats;
        &&& m.total == n
        &&& 0 <= m.done
        &&& 0 <= self.clock
        &&& 0 <= m.missed <= m.done
        &&& m.done + self.ready@.len() + self.queue@.len() <= self.pending
        &&& tally(self.events@) == (m.done as nat, m.total_wait as int, m.busy_time as int, m.missed as nat, m.max_wait as int)
        &&& starts_paired(self.events@)
        &&& finishes_paired(self.events@)
    }

    /// What holds between the phases of the simulation.
    spec fn inv(&self, s: Seq<Task>, n: int) -> bool {
        &&& s.len() == MAX_TASKS
        &&& 0 <= self.pending <= n <= MAX_TASKS
        &&& forall|k: int| 0 <= k < n ==> task_fits(#[trigger] s[k])
        &&& forall|a: int, b: int| 0 <= a < b < n ==> #[trigger] s[a].arrival <= #[trigger] s[b].arrival
        &&& self.queue.wf()
        &&& self.ready.wf()
        &&& self.table.wf()
        &&& self.fsm.state == STATE_IDLE
        &&& self.table.free_slots() + self.pending >= POOL_SIZE
        &&& forall|k: int| 0 <= k < self.pending ==> self.table@.dom().contains(#[trigger] s[k].id)
        &&& forall|id: i32| #[trigger] self.table@.dom().contains(id) ==> self.record_ok(id, s)
        &&& forall|j: int| 0 <= j < self.queue@.len() ==> self.table@.dom().contains(#[trigger] self.queue@[j])
        &&& forall|e: HeapEntry| #[trigger] self.ready@.contains(e) ==> self.table@.dom().contains(e.task_id)
            && e == entry_of(self.table@[e.task_id])
        &&& self.counters_ok(n)
        &&& forall|k: int| 0 <= k < self.events@.len() ==> !(#[trigger] self.events@[k] is BadTransition)
            && !(self.events@[k] is Overflow)
        &&& forall|k: int| 0 <= k < self.events@.len() ==> self.started_ok(#[trigger] self.events@[k], s, n)
        &&& runs_do_not_overlap(self.events@)
        &&& starts_fit(self.events@)
    }

    /// What still holds of an earlier start `ev`: every ready entry whose
    /// task had arrived by then is no more urgent than the task started,
    /// and the tasks still pending or queued arrived after it.
    spec fn start_still_ok(&self, ev: SimEvent, s: Seq<Task>, n: int) -> bool {
        ev matches SimEvent::Started { time: ta, task: x } ==> {
            &&& forall|e: HeapEntry|
                #[trigger] self.ready@.contains(e) && self.table@[e.task_id].arrival <= ta ==> !more_urgent(
                    e,
                    entry_of(x),
                )
            &&& forall|k: int| self.pending <= k < n ==> #[trigger] s[k].arrival > ta
            &&& forall|j: int| 0 <= j < self.queue@.len() ==> self.table@[#[trigger] self.queue@[j]].arrival > ta
        }
    }

    /// Every task not started yet arrived at `t` or later.
    spec fn all_waiting_from(&self, t: int, s: Seq<Task>, n: int) -> bool {
        &&& forall|e: HeapEntry| #[trigger] self.ready@.contains(e) ==> self.table@[e.task_id].arrival >= t
        &&& forall|k: int| self.pending <= k < n ==> #[trigger] s[k].arrival >= t
        &&& forall|j: int| 0 <= j < self.queue@.len() ==> self.table@[#[trigger] self.queue@[j]].arrival >= t
    }

    /// A start at event `k` that came after an idle spell still has every
    /// task not started yet arriving no earlier than it.
    spec fn idle_start_ok(&self, k: int, s: Seq<Task>, n: int) -> bool {
        match self.events@[k] {
            SimEvent::Started { time: ta, .. } => ta > end_before(self.events@, k)
                ==> self.all_waiting_from(ta as int, s, n),
            _ => true,
        }
    }

    /// What holds besides `inv` when the input ids are distinct and
    /// positive: nothing is lost or refused, and starts respect urgency.
    spec fn good_inv(&self, s: Seq<Task>, n: int) -> bool {
        &&& ids_distinct_positive(s, n)
        &&& self.stats.done + self.ready@.len() + self.queue@.len() == self.pending
        &&& events_urgent(self.events@, s, n)
        &&& forall|k: int| 0 <= k < self.events@.len() ==> self.start_still_ok(#[trigger] self.events@[k], s, n)
        &&& forall|k: int| 0 <= k < self.events@.len() ==> #[trigger] self.idle_start_ok(k, s, n)
        &&& self.clock > end_before(self.events@, self.events@.len() as int) ==> self.all_waiting_from(
            self.clock as int,
            s,
            n,
        )
        &&& self.extra_ok(s, n)
    }

    /// The clock stands at the end of the last run, unless some task is
    /// still waiting to run at it.
    spec fn clock_settled(&self, s: Seq<Task>, n: int) -> bool {
        ||| self.clock == end_before(self.events@, self.events@.len() as int)
        ||| self.ready@.len() > 0
        ||| self.queue@.len() > 0
        ||| (self.pending < n && s[self.pending as int].arrival <= self.clock)
    }

    /// With distinct ids, the table's status codes follow the tasks: started
    /// tasks are done, ready ones ready, queued ones queued; nothing is
    /// queued or ready twice and no task starts twice.
    spec fn extra_ok(&self, s: Seq<Task>, n: int) -> bool {
        &&& forall|k: int|
            0 <= k < self.events@.len() ==> (#[trigger] self.events@[k] matches SimEvent::Started { task, .. }
                ==> self.table@.dom().contains(task.id) && self.table@[task.id].status == ST_DONE)
        &&& forall|e: HeapEntry| #[trigger] self.ready@.contains(e) ==> self.table@[e.task_id].status == ST_READY
        &&& forall|e: HeapEntry| #[trigger] self.ready@.count(e) <= 1
        &&& forall|j: int| 0 <= j < self.queue@.len() ==> self.table@[#[trigger] self.queue@[j]].status == ST_QUEUED
        &&& forall|i: int, j: int| 0 <= i < j < self.queue@.len() ==> #[trigger] self.queue@[i] != #[trigger] self.queue@[j]
        &&& forall|k: int| 0 <= k < self.pending ==> self.accounted_for((#[trigger] s[k]).id)
        &&& self.clock_settled(s, n)
    }

    /// Some ready entry is of the task with id `id`.
    spec fn in_ready(&self, id: i32) -> bool {
        exists|e: HeapEntry| #[trigger] self.ready@.contains(e) && e.task_id == id
    }

    /// The queue holds `id`.
    spec fn in_queue(&self, id: i32) -> bool {
        exists|j: int| 0 <= j < self.queue@.len() && #[trigger] self.queue@[j] == id
    }

    /// An admitted task is started, ready or queued.
    spec fn accounted_for(&self, id: i32) -> bool {
        runs_task(self.events@, id) || self.in_ready(id) || self.in_queue(id)
    }

    /// The laws of the events still hold once the start of `t`, the task of
    /// the most urgent ready entry `e`, is added at the current time.
    proof fn lemma_start_laws(&self, s: Seq<Task>, n: int, e: HeapEntry, t: Task)
        requires
            self.inv(s, n),
            self.arrivals_done(s, n),
            self.good_inv(s, n) ==> self.queue@.len() == 0,
            self.ready@.contains(e),
            is_most_urgent_in(e, self.ready@),
            t == self.table@[e.task_id],
        ensures
            schedule_sound(self.events@.push(SimEvent::Started { time: self.clock, task: t }), s, n),
            self.good_inv(s, n) ==> schedule_urgent(
                self.events@.push(SimEvent::Started { time: self.clock, task: t }),
                s,
                n,
            ),
    {
        let started = SimEvent::Started { time: self.clock, task: t };
        let pev = self.events@;
        let w = pev.push(started);
        let l = pev.len() as int;
        let id = e.task_id;
        assert(self.table@.dom().contains(id));
        assert(self.record_ok(id, s));
        assert(e == entry_of(t));
        assert(w[l] == started);
        assert forall|k: int| 0 <= k < l implies #[trigger] w[k] == pev[k] by {}
        assert(w.take(l) =~= pev);
        assert forall|a: int| 0 <= a <= l implies #[trigger] end_before(w, a) == end_before(pev, a) by {
            lemma_end_before_prefix(pev, w, a);
        }
        assert forall|a: int| 0 <= a <= l implies #[trigger] w.take(a) == pev.take(a) by {
            assert(w.take(a) =~= pev.take(a));
        }
        assert(self.counters_ok(n));
        assert forall|a: int, b: int| 0 <= a < b < w.len() implies match (#[trigger] w[a], #[trigger] w[b]) {
            (SimEvent::Started { time: ta, task: x }, SimEvent::Started { time: tb, task: y }) => ta + x.duration <= tb,
            _ => true,
        } by {
            assert(w[a] == pev[a]);
            if b < l {
                assert(w[b] == pev[b]);
            } else {
                assert(self.started_ok(pev[a], s, n));
            }
        }
        assert forall|k: int| 0 <= k < w.len() && #[trigger] w[k] is Finished implies k > 0 && w[k - 1] is Started
            && w[k] == finish_of(w[k - 1]) by {
            assert(w[k] == pev[k]);
            assert(w[k - 1] == pev[k - 1]);
        }
        assert forall|k: int| 0 <= k < w.len() implies !(#[trigger] w[k] is BadTransition) && !(w[k] is Overflow) by {
            if k < l {
                assert(w[k] == pev[k]);
            }
        }
        let kk = choose|kk: int| 0 <= kk < self.pending && s[kk].id == id && same_task_but_status(self.table@[id], s[kk]);
        assert forall|k: int| 0 <= k < w.len() implies (#[trigger] w[k] matches SimEvent::Started { time, task }
            ==> task.arrival <= time && exists|j: int| 0 <= j < n && same_task_but_status(task, #[trigger] s[j])) by {
            if k < l {
                assert(w[k] == pev[k]);
                assert(self.started_ok(pev[k], s, n));
            } else {
                assert(same_task_but_status(t, s[kk]));
            }
        }
        if self.good_inv(s, n) {
            reveal(events_urgent);
            assert(self.extra_ok(s, n));
            assert(schedule_urgent(pev, s, n));
            assert(self.table@[id].status == ST_READY);
            assert forall|k: int| 0 <= k < w.len() implies !is_failure(#[trigger] w[k]) by {
                if k < l {
                    assert(w[k] == pev[k]);
                }
            }
            assert forall|a: int, b: int| 0 <= a < b < w.len() implies match (#[trigger] w[a], #[trigger] w[b]) {
                (SimEvent::Started { task: x, .. }, SimEvent::Started { task: y, .. }) => x.id != y.id,
                _ => true,
            } by {
                assert(w[a] == pev[a]);
                if b < l {
                    assert(w[b] == pev[b]);
                }
            }
            assert forall|a: int, b: int| 0 <= a < b < w.len() implies match (#[trigger] w[a], #[trigger] w[b]) {
                (SimEvent::Started { time: ta, task: x }, SimEvent::Started { time: tb, task: y }) =>
                    y.arrival <= ta ==> !more_urgent(entry_of(y), entry_of(x)),
                _ => true,
            } by {
                assert(w[a] == pev[a]);
                if b < l {
                    assert(w[b] == pev[b]);
                } else {
                    assert(self.start_still_ok(pev[a], s, n));
                }
            }
            assert forall|a: int, c: int| 0 <= a < c < w.len() implies match (#[trigger] w[a], #[trigger] w[c]) {
                (SimEvent::Started { time: ta, task: x }, SimEvent::Started { time: tc, task: y }) =>
                    ta > end_before(w, a) ==> y.arrival >= ta,
                _ => true,
            } by {
                assert(w[a] == pev[a]);
                if c < l {
                    assert(w[c] == pev[c]);
                } else {
                    assert(self.idle_start_ok(a, s, n));
                }
            }
            assert forall|a: int| 0 <= a < w.len() implies match #[trigger] w[a] {
                SimEvent::Started { time, task } => time > end_before(w, a) ==> task.arrival == time,
                _ => true,
            } by {
                if a < l {
                    assert(w[a] == pev[a]);
                }
            }
            assert forall|a: int| 0 <= a < w.len() implies #[trigger] start_follows_inputs(w, s, n, a) by {
                if a < l {
                    assert(w[a] == pev[a]);
                    assert(start_follows_inputs(pev, s, n, a));
                } else {
                    self.lemma_start_follows_inputs(s, n, e, t);
                }
            }
        }
    }

    /// The new start follows urgency and arrivals over the input tasks.
    proof fn lemma_start_follows_inputs(&self, s: Seq<Task>, n: int, e: HeapEntry, t: Task)
        requires
            self.inv(s, n),
            self.good_inv(s, n),
            self.arrivals_done(s, n),
            self.queue@.len() == 0,
            self.ready@.contains(e),
            is_most_urgent_in(e, self.ready@),
            t == self.table@[e.task_id],
        ensures
            start_follows_inputs(
                self.events@.push(SimEvent::Started { time: self.clock, task: t }),
                s,
                n,
                self.events@.len() as int,
            ),
    {
        let pev = self.events@;
        let w = pev.push(SimEvent::Started { time: self.clock, task: t });
        let l = pev.len() as int;
        assert(w.take(l) =~= pev);
        lemma_end_before_prefix(pev, w, l);
        assert(self.extra_ok(s, n));
        assert(self.table@.dom().contains(e.task_id));
        assert(e == entry_of(t));
        // an input task not started yet that has arrived is ready
        assert forall|j: int| 0 <= j < n && !runs_task(pev, s[j].id) && s[j].arrival <= self.clock implies j
            < self.pending && self.in_ready(s[j].id) by {
            if j >= self.pending {
                assert(s[self.pending as int].arrival <= s[j].arrival);
            }
            assert(self.accounted_for(s[j].id));
        }
        // the entry of a ready input task is its entry
        assert forall|j: int, x: HeapEntry| 0 <= j < n && #[trigger] self.ready@.contains(x) && x.task_id == (
        #[trigger] s[j]).id implies x == entry_of(s[j]) && self.table@[x.task_id].arrival == s[j].arrival by {
            assert(self.table@.dom().contains(x.task_id));
            assert(self.record_ok(x.task_id, s));
            let kk = choose|kk: int| 0 <= kk < self.pending && s[kk].id == x.task_id && same_task_but_status(
                self.table@[x.task_id],
                s[kk],
            );
            if kk != j {
                if kk < j {
                    assert(s[kk].id != s[j].id);
                } else {
                    assert(s[j].id != s[kk].id);
                }
            }
        }
        assert forall|j: int|
            0 <= j < n && !runs_task(w.take(l), (#[trigger] s[j]).id) && s[j].arrival <= self.clock implies !more_urgent(
            entry_of(s[j]),
            entry_of(t),
        ) by {
            assert(self.in_ready(s[j].id));
            let x = choose|x: HeapEntry| #[trigger] self.ready@.contains(x) && x.task_id == s[j].id;
            assert(x == entry_of(s[j]));
        }
        if self.clock > end_before(w, l) {
            assert(self.all_waiting_from(self.clock as int, s, n));
            assert forall|j: int| 0 <= j < n && !runs_task(w.take(l), (#[trigger] s[j]).id) implies s[j].arrival
                >= self.clock by {
                if j < self.pending {
                    assert(self.accounted_for(s[j].id));
                    assert(self.in_ready(s[j].id));
                    let x = choose|x: HeapEntry| #[trigger] self.ready@.contains(x) && x.task_id == s[j].id;
                    assert(x == entry_of(s[j]));
                }
            }
        }
    }

    proof fn lemma_extra_admit(&self, pre: Simulation, s: Seq<Task>, n: int, t: Task)
        requires
            pre.inv(s, n),
            pre.good_inv(s, n),
            pre.pending < n,
            t == (Task { status: ST_QUEUED, ..s[pre.pending as int] }),
            !pre.table@.dom().contains(t.id),
            self.table@ == pre.table@.insert(t.id, t),
            self.queue@ == pre.queue@.push(t.id),
            self.ready == pre.ready,
            self.events@ == pre.events@,
            self.clock == pre.clock,
            self.pending == pre.pending + 1,
        ensures
            self.extra_ok(s, n),
    {
        let evs = self.events@;
        assert forall|k: int| 0 <= k < evs.len() implies (#[trigger] evs[k] matches SimEvent::Started { task, .. }
            ==> self.table@.dom().contains(task.id) && self.table@[task.id].status == ST_DONE) by {
            assert(pre.events@[k] == evs[k]);
        }
        assert forall|e: HeapEntry| #[trigger] self.ready@.contains(e) implies self.table@[e.task_id].status == ST_READY by {
            assert(pre.ready@.contains(e));
            assert(pre.table@.dom().contains(e.task_id));
        }
        assert forall|e: HeapEntry| #[trigger] self.ready@.count(e) <= 1 by {
            assert(pre.ready@.count(e) <= 1);
        }
        assert forall|j: int| 0 <= j < self.queue@.len() implies self.table@[#[trigger] self.queue@[j]].status == ST_QUEUED by {
            if j < pre.queue@.len() {
                assert(self.queue@[j] == pre.queue@[j]);
                assert(pre.table@.dom().contains(pre.queue@[j]));
            }
        }
        assert forall|i: int, j: int| 0 <= i < j < self.queue@.len() implies #[trigger] self.queue@[i] != #[trigger] self.queue@[j] by {
            assert(self.queue@[i] == pre.queue@[i]);
            assert(pre.table@.dom().contains(pre.queue@[i]));
            if j < pre.queue@.len() {
                assert(self.queue@[j] == pre.queue@[j]);
            }
        }
        assert(self.queue@.len() > 0);
        assert forall|k: int| 0 <= k < self.pending implies self.accounted_for((#[trigger] s[k]).id) by {
            if k < pre.pending {
                assert(pre.accounted_for(s[k].id));
                if pre.in_queue(s[k].id) {
                    let j = choose|j: int| 0 <= j < pre.queue@.len() && #[trigger] pre.queue@[j] == s[k].id;
                    assert(self.queue@[j] == pre.queue@[j]);
                }
                if pre.in_ready(s[k].id) {
                    let x = choose|x: HeapEntry| #[trigger] pre.ready@.contains(x) && x.task_id == s[k].id;
                    assert(self.ready@.contains(x));
                }
            } else {
                assert(self.queue@[pre.queue@.len() as int] == t.id);
            }
        }
    }

    proof fn lemma_extra_ready(&self, pre: Simulation, s: Seq<Task>, n: int, t: Task, entry: HeapEntry)
        requires
            pre.inv(s, n),
            pre.good_inv(s, n),
            pre.queue@.len() > 0,
            t == pre.table@[pre.queue@[0]],
            pre.table@.dom().contains(pre.queue@[0]),
            entry == entry_of(t),
            self.queue@ == pre.queue@.drop_first(),
            self.ready@ == pre.ready@.insert(entry),
            self.table@ == with_status(pre.table@, pre.queue@[0], ST_READY),
            self.events@ == pre.events@,
            self.clock == pre.clock,
            self.pending == pre.pending,
        ensures
            self.extra_ok(s, n),
    {
        let tid = pre.queue@[0];
        let evs = self.events@;
        assert(pre.table@[tid].status == ST_QUEUED);
        assert(pre.record_ok(tid, s));
        assert(entry.task_id == tid);
        assert forall|k: int| 0 <= k < evs.len() implies (#[trigger] evs[k] matches SimEvent::Started { task, .. }
            ==> self.table@.dom().contains(task.id) && self.table@[task.id].status == ST_DONE) by {
            assert(pre.events@[k] == evs[k]);
        }
        assert(!pre.ready@.contains(entry));
        assert forall|e: HeapEntry| #[trigger] self.ready@.contains(e) implies self.table@[e.task_id].status == ST_READY by {
            if e != entry {
                assert(pre.ready@.contains(e));
                assert(pre.table@.dom().contains(e.task_id));
            }
        }
        assert forall|e: HeapEntry| #[trigger] self.ready@.count(e) <= 1 by {
            assert(pre.ready@.count(e) <= 1);
            if e == entry {
                assert(pre.ready@.count(e) == 0);
            }
        }
        assert forall|j: int| 0 <= j < self.queue@.len() implies self.table@[#[trigger] self.queue@[j]].status == ST_QUEUED by {
            assert(self.queue@[j] == pre.queue@[j + 1]);
            assert(pre.queue@[0] != pre.queue@[j + 1]);
            assert(pre.table@.dom().contains(pre.queue@[j + 1]));
        }
        assert forall|i: int, j: int| 0 <= i < j < self.queue@.len() implies #[trigger] self.queue@[i] != #[trigger] self.queue@[j] by {
            assert(self.queue@[i] == pre.queue@[i + 1]);
            assert(self.queue@[j] == pre.queue@[j + 1]);
        }
        assert(self.ready@.contains(entry));
        assert forall|k: int| 0 <= k < self.pending implies self.accounted_for((#[trigger] s[k]).id) by {
            assert(pre.accounted_for(s[k].id));
            if pre.in_queue(s[k].id) {
                let j = choose|j: int| 0 <= j < pre.queue@.len() && #[trigger] pre.queue@[j] == s[k].id;
                if j > 0 {
                    assert(self.queue@[j - 1] == pre.queue@[j]);
                }
            }
            if pre.in_ready(s[k].id) {
                let x = choose|x: HeapEntry| #[trigger] pre.ready@.contains(x) && x.task_id == s[k].id;
                assert(self.ready@.contains(x));
            }
        }
    }

    proof fn lemma_extra_run(&self, pre: Simulation, s: Seq<Task>, n: int, e: HeapEntry, t: Task)
        requires
            pre.inv(s, n),
            pre.good_inv(s, n),
            pre.queue@.len() == 0,
            pre.ready@.contains(e),
            pre.table@.dom().contains(e.task_id),
            t == pre.table@[e.task_id],
            self.ready@ == pre.ready@.remove(e),
            self.queue == pre.queue,
            self.table@ == with_status(with_status(pre.table@, t.id, ST_RUNNING), t.id, ST_DONE),
            self.clock == pre.clock + t.duration,
            self.pending == pre.pending,
            self.events@ == pre.events@.push(SimEvent::Started { time: pre.clock, task: t }).push(
                SimEvent::Finished {
                    time: self.clock,
                    id: t.id,
                    missed: self.clock > abs_deadline_of(t),
                },
            ),
        ensures
            self.extra_ok(s, n),
    {
        let tid = e.task_id;
        let evs = self.events@;
        let n0 = pre.events@.len() as int;
        assert(pre.record_ok(tid, s));
        assert(t.id == tid);
        assert(pre.table@[tid].status == ST_READY);
        assert(evs[n0] == SimEvent::Started { time: pre.clock, task: t });
        assert(evs[n0 + 1] is Finished);
        assert forall|k: int| 0 <= k < evs.len() implies (#[trigger] evs[k] matches SimEvent::Started { task, .. }
            ==> self.table@.dom().contains(task.id) && self.table@[task.id].status == ST_DONE) by {
            if k < n0 {
                assert(pre.events@[k] == evs[k]);
            }
        }
        assert(pre.ready@.count(e) <= 1);
        assert forall|x: HeapEntry| #[trigger] self.ready@.contains(x) implies self.table@[x.task_id].status == ST_READY by {
            assert(pre.ready@.contains(x));
            assert(x != e);
            assert(pre.table@.dom().contains(x.task_id));
            assert(x == entry_of(pre.table@[x.task_id]));
            assert(e == entry_of(pre.table@[tid]));
        }
        assert forall|x: HeapEntry| #[trigger] self.ready@.count(x) <= 1 by {
            assert(pre.ready@.count(x) <= 1);
        }
        assert forall|k: int| 0 <= k < self.pending implies self.accounted_for((#[trigger] s[k]).id) by {
            assert(pre.accounted_for(s[k].id));
            if runs_task(pre.events@, s[k].id) {
                let a = choose|a: int| 0 <= a < pre.events@.len() && (#[trigger] pre.events@[a] matches SimEvent::Started { task, .. } && task.id == s[k].id);
                assert(evs[a] == pre.events@[a]);
            }
            if pre.in_ready(s[k].id) {
                let x = choose|x: HeapEntry| #[trigger] pre.ready@.contains(x) && x.task_id == s[k].id;
                if x.task_id == tid {
                    assert(evs[n0] matches SimEvent::Started { task, .. } && task.id == s[k].id);
                } else {
                    assert(self.ready@.contains(x));
                }
            }
        }
        lemma_end_before_prefix(pre.events@, evs, n0);
        assert(end_before(evs, n0 + 2) == end_before(evs, n0 + 1));
        assert(end_before(evs, n0 + 1) == pre.clock + t.duration);
    }

    /// All tasks up to `pending` have arrived; the next one, if any, has not.
    spec fn arrivals_done(&self, s: Seq<Task>, n: int) -> bool {
        self.pending == n || s[self.pending as int].arrival > self.clock
    }

    /// Moves every task whose arrival time has come into the queue and the
    /// table, with status `ST_QUEUED`.
    fn admit_arrivals(&mut self, tasks: &[Task; MAX_TASKS], n: usize)
        requires
            old(self).inv(tasks@, n as int),
        ensures
            final(self).inv(tasks@, n as int),
            final(self).arrivals_done(tasks@, n as int),
            old(self).pending <= final(self).pending,
            final(self).clock == old(self).clock,
            final(self).stats == old(self).stats,
            final(self).ready@ == old(self).ready@,
            old(self).events@.is_prefix_of(final(self).events@),
            final(self).queue@.len() <= old(self).queue@.len() + (final(self).pending - old(self).pending),
            old(self).good_inv(tasks@, n as int) ==> final(self).good_inv(tasks@, n as int),
    {
        let ghost s = tasks@;
        while self.pending < n && tasks[self.pending].arrival <= self.clock
            invariant
                s == tasks@,
                self.inv(s, n as int),
                old(self).pending <= self.pending,
                self.clock == old(self).clock,
                self.stats == old(self).stats,
                self.ready@ == old(self).ready@,
                old(self).events@.is_prefix_of(self.events@),
                self.queue@.len() <= old(self).queue@.len() + (self.pending - old(self).pending),
                old(self).good_inv(s, n as int) ==> self.good_inv(s, n as int),
            decreases n - self.pending,
        {
            let ghost pre = *self;
            let p = self.pending;
            let t = tasks[p];
            let ghost qlen = self.queue@.len();
            if self.queue.enqueue(t.id) < 0 {
                self.events.push(SimEvent::QueueFull { id: t.id });
            }
            let mut t_copy = t;
            t_copy.status = ST_QUEUED;
            let outcome = self.table.insert(t_copy);
            match outcome {
                TableInsert::DuplicateId => {
                    self.events.push(SimEvent::DuplicateId { id: t.id });
                },
                TableInsert::PoolFull => {
                    self.events.push(SimEvent::PoolFull { id: t.id });
                },
                TableInsert::Inserted => {},
            }
            self.pending = p + 1;
            proof {
                self.lemma_admit_step(pre, s, n as int, t_copy, outcome);
                if pre.good_inv(s, n as int) {
                    self.lemma_admit_step_good(pre, s, n as int, t_copy, outcome);
                }
            }
        }
    }

    /// Moves every queued id into the ready heap, marking its task
    /// `ST_READY`; stops early at an id below zero.
    fn drain_queue(&mut self, Ghost(s): Ghost<Seq<Task>>, Ghost(n): Ghost<int>)
        requires
            old(self).inv(s, n),
        ensures
            final(self).inv(s, n),
            final(self).pending == old(self).pending,
            final(self).clock == old(self).clock,
            final(self).stats == old(self).stats,
            old(self).events@.is_prefix_of(final(self).events@),
            2 * final(self).queue@.len() + final(self).ready@.len() <= 2 * old(self).queue@.len()
                + old(self).ready@.len(),
            old(self).good_inv(s, n) ==> final(self).good_inv(s, n) && final(self).queue@.len() == 0,
    {
        while !self.queue.is_empty()
            invariant
                self.inv(s, n),
                old(self).good_inv(s, n) ==> self.good_inv(s, n),
                self.pending == old(self).pending,
                self.clock == old(self).clock,
                self.stats == old(self).stats,
                old(self).events@.is_prefix_of(self.events@),
                2 * self.queue@.len() + self.ready@.len() <= 2 * old(self).queue@.len()
                    + old(self).ready@.len(),
            ensures
                old(self).good_inv(s, n) ==> self.queue@.len() == 0,
            decreases self.queue@.len(),
        {
            let ghost pre = *self;
            let tid = self.queue.dequeue();
            proof {
                assert(pre.table@.dom().contains(pre.queue@[0]));
                assert(pre.record_ok(tid, s));
            }
            if tid < 0 {
                proof {
                    self.lemma_drop_queued(pre, s, n);
                    if pre.good_inv(s, n) {
                        let k = choose|k: int| 0 <= k < pre.pending && s[k].id == tid && same_task_but_status(pre.table@[tid], s[k]);
                        assert(s[k].id > 0);
                        assert(false);
                    }
                }
                break;
            }
            match self.table.lookup(tid) {
                Some(t) => {
                    let entry = HeapEntry {
                        rank: t.rank(),
                        deadline: t.abs_deadline(),
                        duration: t.duration,
                        order: t.order,
                        task_id: t.id,
                    };
                    let ghost mid = *self;
                    proof {
                        assert(pre.counters_ok(n));
                    }
                    if self.ready.insert(entry) < 0 {
                        self.events.push(SimEvent::HeapFull { id: entry.task_id });
                    }
                    self.table.update_status(tid, ST_READY);
                    proof {
                        self.lemma_ready_step(pre, s, n, t, entry);
                        if pre.good_inv(s, n) {
                            self.lemma_ready_step_good(pre, s, n, t, entry);
                        }
                    }
                },
                None => {
                    proof {
                        self.lemma_drop_queued(pre, s, n);
                    }
                },
            }
        }
    }

    /// Dropping the front of the queue keeps the invariant.
    proof fn lemma_drop_queued(&self, pre: Simulation, s: Seq<Task>, n: int)
        requires
            pre.inv(s, n),
            pre.queue@.len() > 0,
            self.queue.wf(),
            self.queue@ == pre.queue@.drop_first(),
            self.ready == pre.ready,
            self.table == pre.table,
            self.fsm == pre.fsm,
            self.stats == pre.stats,
            self.clock == pre.clock,
            self.pending == pre.pending,
            self.events == pre.events,
        ensures
            self.inv(s, n),
    {
        assert forall|j: int| 0 <= j < self.queue@.len() implies self.table@.dom().contains(#[trigger] self.queue@[j]) by {
            assert(pre.table@.dom().contains(pre.queue@[j + 1]));
        }
        assert forall|id: i32| #[trigger] self.table@.dom().contains(id) implies self.record_ok(id, s) by {
            assert(pre.record_ok(id, s));
        }
        assert forall|k: int| 0 <= k < self.events@.len() implies self.started_ok(#[trigger] self.events@[k], s, n) by {
            assert(pre.started_ok(pre.events@[k], s, n));
        }
    }

    proof fn lemma_ready_step_good(&self, pre: Simulation, s: Seq<Task>, n: int, t: Task, entry: HeapEntry)
        requires
            pre.inv(s, n),
            pre.good_inv(s, n),
            self.inv(s, n),
            pre.queue@.len() > 0,
            t == pre.table@[pre.queue@[0]],
            pre.table@.dom().contains(pre.queue@[0]),
            entry == entry_of(t),
            self.queue@ == pre.queue@.drop_first(),
            self.ready@ == pre.ready@.insert(entry),
            self.table@ == with_status(pre.table@, pre.queue@[0], ST_READY),
            self.stats == pre.stats,
            self.pending == pre.pending,
            self.events@ == pre.events@,
            self.clock == pre.clock,
        ensures
            self.good_inv(s, n),
    {
        self.lemma_extra_ready(pre, s, n, t, entry);
        let tid = pre.queue@[0];
        assert forall|id: i32| #[trigger] pre.table@.dom().contains(id) implies self.table@[id].arrival
            == pre.table@[id].arrival by {}
        assert(forall|e: HeapEntry| #[trigger] pre.ready@.contains(e) ==> pre.table@.dom().contains(e.task_id));
        assert(forall|j: int| 0 <= j < pre.queue@.len() ==> pre.table@.dom().contains(#[trigger] pre.queue@[j]));
        if self.clock > end_before(self.events@, self.events@.len() as int) {
            self.lemma_waiting_ready(pre, entry, self.clock as int, s, n);
        }
        assert forall|k: int| 0 <= k < self.events@.len() implies #[trigger] self.idle_start_ok(k, s, n) by {
            assert(pre.idle_start_ok(k, s, n));
            if let SimEvent::Started { time: ta, .. } = self.events@[k] {
                if ta > end_before(self.events@, k) {
                    self.lemma_waiting_ready(pre, entry, ta as int, s, n);
                }
            }
        }
        assert forall|k: int| 0 <= k < self.events@.len() implies self.start_still_ok(#[trigger] self.events@[k], s, n) by {
            let ev = self.events@[k];
            assert(pre.start_still_ok(ev, s, n));
            if let SimEvent::Started { time: ta, task: x } = ev {
                assert forall|e: HeapEntry|
                    #[trigger] self.ready@.contains(e) && self.table@[e.task_id].arrival <= ta implies !more_urgent(
                        e,
                        entry_of(x),
                    ) by {
                    if e == entry {
                        assert(pre.table@[pre.queue@[0]].arrival > ta);
                        assert(self.table@[e.task_id].arrival == t.arrival);
                    } else {
                        assert(pre.ready@.contains(e));
                        assert(pre.table@.dom().contains(e.task_id));
                        assert(self.table@[e.task_id].arrival == pre.table@[e.task_id].arrival);
                    }
                }
                assert forall|j: int| 0 <= j < self.queue@.len() implies self.table@[#[trigger] self.queue@[j]].arrival > ta by {
                    assert(pre.table@[pre.queue@[j + 1]].arrival > ta);
                    assert(pre.table@.dom().contains(pre.queue@[j + 1]));
                }
            }
        }
    }

    /// Moving the front id of the queue into the heap as `entry` and marking
    /// its task ready keeps the invariant.
    proof fn lemma_ready_step(&self, pre: Simulation, s: Seq<Task>, n: int, t: Task, entry: HeapEntry)
        requires
            pre.inv(s, n),
            pre.queue@.len() > 0,
            t == pre.table@[pre.queue@[0]],
            pre.table@.dom().contains(pre.queue@[0]),
            entry == entry_of(t),
            self.queue.wf(),
            self.queue@ == pre.queue@.drop_first(),
            self.ready.wf(),
            pre.ready@.len() < 1024 ==> self.ready@ == pre.ready@.insert(entry),
            self.table.wf(),
            self.table@ == with_status(pre.table@, pre.queue@[0], ST_READY),
            self.table.free_slots() == pre.table.free_slots(),
            self.fsm == pre.fsm,
            self.stats == pre.stats,
            self.clock == pre.clock,
            self.pending == pre.pending,
            self.events@ == pre.events@,
        ensures
            self.inv(s, n),
            2 * self.queue@.len() + self.ready@.len() < 2 * pre.queue@.len() + pre.ready@.len(),
    {
        let tid = pre.queue@[0];
        assert(pre.counters_ok(n));
        assert(pre.ready@.len() < 1024);
        assert(pre.record_ok(tid, s));
        assert forall|id: i32| #[trigger] self.table@.dom().contains(id) implies self.record_ok(id, s) by {
            assert(pre.table@.dom().contains(id));
            assert(pre.record_ok(id, s));
            let k = choose|k: int| 0 <= k < pre.pending && s[k].id == id && same_task_but_status(pre.table@[id], s[k]);
            assert(same_task_but_status(self.table@[id], s[k]));
        }
        assert forall|k: int| 0 <= k < self.pending implies self.table@.dom().contains(#[trigger] s[k].id) by {
            assert(pre.table@.dom().contains(s[k].id));
        }
        assert forall|j: int| 0 <= j < self.queue@.len() implies self.table@.dom().contains(#[trigger] self.queue@[j]) by {
            assert(pre.table@.dom().contains(pre.queue@[j + 1]));
        }
        assert forall|e: HeapEntry| #[trigger] self.ready@.contains(e) implies self.table@.dom().contains(e.task_id)
            && e == entry_of(self.table@[e.task_id]) by {
            if e != entry {
                assert(pre.ready@.contains(e));
            }
        }
        assert forall|k: int| 0 <= k < self.events@.len() implies self.started_ok(#[trigger] self.events@[k], s, n) by {
            assert(pre.started_ok(pre.events@[k], s, n));
        }
    }

    /// Termination measure of the main loop.
    spec fn measure(&self, s: Seq<Task>, n: int) -> int {
        3 * (n - self.pending) + 2 * self.queue@.len() + self.ready@.len() + if self.pending < n
            && s[self.pending as int].arrival > self.clock {
            1int
        } else {
            0int
        }
    }

    /// Admitting task `pending` keeps every not-started task arriving at `t`
    /// or later.
    proof fn lemma_waiting_admit(&self, pre: Simulation, t: int, s: Seq<Task>, n: int)
        requires
            pre.all_waiting_from(t, s, n),
            forall|e: HeapEntry| #[trigger] pre.ready@.contains(e) ==> pre.table@.dom().contains(e.task_id),
            forall|j: int| 0 <= j < pre.queue@.len() ==> pre.table@.dom().contains(#[trigger] pre.queue@[j]),
            pre.pending < n,
            self.pending == pre.pending + 1,
            self.ready@ == pre.ready@,
            self.queue@ == pre.queue@.push(s[pre.pending as int].id),
            forall|id: i32| #[trigger] pre.table@.dom().contains(id) ==> self.table@[id].arrival == pre.table@[id].arrival,
            self.table@[s[pre.pending as int].id].arrival == s[pre.pending as int].arrival,
        ensures
            self.all_waiting_from(t, s, n),
    {
        assert forall|e: HeapEntry| #[trigger] self.ready@.contains(e) implies self.table@[e.task_id].arrival >= t by {
            assert(pre.ready@.contains(e));
            assert(pre.table@.dom().contains(e.task_id));
        }
        assert forall|j: int| 0 <= j < self.queue@.len() implies self.table@[#[trigger] self.queue@[j]].arrival >= t by {
            if j < pre.queue@.len() {
                assert(self.queue@[j] == pre.queue@[j]);
                assert(pre.table@.dom().contains(pre.queue@[j]));
            } else {
                assert(s[pre.pending as int].arrival >= t);
            }
        }
    }

    /// Moving the front of the queue into the heap keeps every not-started
    /// task arriving at `t` or later.
    proof fn lemma_waiting_ready(&self, pre: Simulation, entry: HeapEntry, t: int, s: Seq<Task>, n: int)
        requires
            pre.all_waiting_from(t, s, n),
            forall|e: HeapEntry| #[trigger] pre.ready@.contains(e) ==> pre.table@.dom().contains(e.task_id),
            forall|j: int| 0 <= j < pre.queue@.len() ==> pre.table@.dom().contains(#[trigger] pre.queue@[j]),
            pre.queue@.len() > 0,
            entry.task_id == pre.queue@[0],
            self.pending == pre.pending,
            self.ready@ == pre.ready@.insert(entry),
            self.queue@ == pre.queue@.drop_first(),
            forall|id: i32| #[trigger] pre.table@.dom().contains(id) ==> self.table@[id].arrival == pre.table@[id].arrival,
        ensures
            self.all_waiting_from(t, s, n),
    {
        assert(pre.table@.dom().contains(pre.queue@[0]));
        assert(pre.table@[pre.queue@[0]].arrival >= t);
        assert forall|e: HeapEntry| #[trigger] self.ready@.contains(e) implies self.table@[e.task_id].arrival >= t by {
            if e != entry {
                assert(pre.ready@.contains(e));
                assert(pre.table@.dom().contains(e.task_id));
            }
        }
        assert forall|j: int| 0 <= j < self.queue@.len() implies self.table@[#[trigger] self.queue@[j]].arrival >= t by {
            assert(self.queue@[j] == pre.queue@[j + 1]);
            assert(pre.table@.dom().contains(pre.queue@[j + 1]));
        }
    }

    /// Taking an entry out of the heap keeps every not-started task arriving
    /// at `t` or later.
    proof fn lemma_waiting_run(&self, pre: Simulation, entry: HeapEntry, t: int, s: Seq<Task>, n: int)
        requires
            pre.all_waiting_from(t, s, n),
            forall|e: HeapEntry| #[trigger] pre.ready@.contains(e) ==> pre.table@.dom().contains(e.task_id),
            forall|j: int| 0 <= j < pre.queue@.len() ==> pre.table@.dom().contains(#[trigger] pre.queue@[j]),
            self.pending == pre.pending,
            self.ready@ == pre.ready@.remove(entry),
            self.queue@ == pre.queue@,
            forall|id: i32| #[trigger] pre.table@.dom().contains(id) ==> self.table@[id].arrival == pre.table@[id].arrival,
        ensures
            self.all_waiting_from(t, s, n),
    {
        assert forall|e: HeapEntry| #[trigger] self.ready@.contains(e) implies self.table@[e.task_id].arrival >= t by {
            assert(pre.ready@.contains(e));
            assert(pre.table@.dom().contains(e.task_id));
        }
        assert forall|j: int| 0 <= j < self.queue@.len() implies self.table@[#[trigger] self.queue@[j]].arrival >= t by {
            assert(pre.table@.dom().contains(pre.queue@[j]));
        }
    }

    /// With nothing ready, moving the clock to the next arrival keeps the
    /// invariant.
    proof fn lemma_jump(&self, pre: Simulation, s: Seq<Task>, n: int)
        requires
            pre.inv(s, n),
            pre.pending < n,
            pre.clock < s[pre.pending as int].arrival,
            self.clock == s[pre.pending as int].arrival,
            self.queue == pre.queue,
            self.ready == pre.ready,
            self.table == pre.table,
            self.fsm == pre.fsm,
            self.stats == pre.stats,
            self.pending == pre.pending,
            self.events == pre.events,
            pre.ready@.len() == 0,
            pre.good_inv(s, n) ==> pre.queue@.len() == 0,
        ensures
            self.inv(s, n),
            self.measure(s, n) < pre.measure(s, n),
            pre.good_inv(s, n) ==> self.good_inv(s, n),
    {
        if pre.good_inv(s, n) {
            assert(pre.extra_ok(s, n));
            assert(self.clock_settled(s, n));
            assert forall|k: int| 0 <= k < self.events@.len() implies self.start_still_ok(#[trigger] self.events@[k], s, n) by {
                assert(pre.start_still_ok(pre.events@[k], s, n));
            }
            assert forall|k: int| 0 <= k < self.events@.len() implies #[trigger] self.idle_start_ok(k, s, n) by {
                assert(pre.idle_start_ok(k, s, n));
            }
            let evs = self.events@;
            assert forall|k: int| 0 <= k < evs.len() implies (#[trigger] evs[k] matches SimEvent::Started { time, task }
                ==> time + task.duration <= pre.clock) by {
                assert(pre.started_ok(evs[k], s, n));
            }
            lemma_end_before_le(evs, evs.len() as int, pre.clock as int);
            assert forall|e: HeapEntry| #[trigger] self.ready@.contains(e) implies self.table@[e.task_id].arrival >= self.clock by {
                assert(pre.ready@.len() == 0);
            }
            assert forall|k: int| self.pending <= k < n implies #[trigger] s[k].arrival >= self.clock by {
                if k > self.pending {
                    assert(s[self.pending as int].arrival <= s[k].arrival);
                }
            }
        }
        assert(task_fits(s[pre.pending as int]));
        assert(pre.counters_ok(n));
        assert forall|id: i32| #[trigger] self.table@.dom().contains(id) implies self.record_ok(id, s) by {
            assert(pre.record_ok(id, s));
            let k = choose|k: int| 0 <= k < pre.pending && s[k].id == id && same_task_but_status(pre.table@[id], s[k]);
        }
        assert forall|k: int| 0 <= k < self.events@.len() implies self.started_ok(#[trigger] self.events@[k], s, n) by {
            assert(pre.started_ok(pre.events@[k], s, n));
        }
    }

    /// Moves the state machine to `to`; a refused move is recorded.
    fn step_fsm(&mut self, to: i32)
        ensures
            allowed_transition(old(self).fsm.state, to) ==> final(self).fsm.state == to
                && final(self).events@ == old(self).events@,
            !allowed_transition(old(self).fsm.state, to) ==> final(self).fsm.state == old(self).fsm.state
                && final(self).events@ == old(self).events@.push(
                SimEvent::BadTransition { from: old(self).fsm.state, to: to },
            ),
            final(self).queue == old(self).queue,
            final(self).ready == old(self).ready,
            final(self).table == old(self).table,
            final(self).stats == old(self).stats,
            final(self).clock == old(self).clock,
            final(self).pending == old(self).pending,
    {
        if self.fsm.transition(to) < 0 {
            let from = self.fsm.state;
            self.events.push(SimEvent::BadTransition { from: from, to: to });
        }
    }

    /// Runs the most urgent ready task to completion: it is taken from the
    /// heap, marked running, counted, the clock advances by its duration,
    /// and it is marked done.  Returns false, with its start and an
    /// `Overflow` event recorded, when that arithmetic would leave `i32`.
    fn run_next(&mut self, Ghost(s): Ghost<Seq<Task>>, Ghost(n): Ghost<int>) -> (ok: bool)
        requires
            old(self).inv(s, n),
            old(self).arrivals_done(s, n),
            old(self).ready@.len() > 0,
            old(self).good_inv(s, n) ==> old(self).queue@.len() == 0,
        ensures
            ok ==> final(self).inv(s, n),
            ok ==> final(self).pending == old(self).pending,
            ok ==> final(self).clock >= old(self).clock,
            ok ==> final(self).queue@ == old(self).queue@,
            ok ==> final(self).ready@.len() + 1 == old(self).ready@.len(),
            ok ==> old(self).events@.is_prefix_of(final(self).events@),
            ok ==> (old(self).good_inv(s, n) ==> final(self).good_inv(s, n)),
            !ok ==> stopped_on_overflow(final(self).events@),
            !ok ==> final(self).stats == old(self).stats,
            !ok ==> final(self).fsm.state == STATE_RUNNING,
            !ok ==> schedule_sound(final(self).events@.drop_last(), s, n),
            !ok ==> (old(self).good_inv(s, n) ==> schedule_urgent(final(self).events@.drop_last(), s, n)),
            !ok ==> starts_paired(final(self).events@.take(final(self).events@.len() - 2)),
            !ok ==> tally(final(self).events@.take(final(self).events@.len() - 2)) == (
                final(self).stats.done as nat,
                final(self).stats.total_wait as int,
                final(self).stats.busy_time as int,
                final(self).stats.missed as nat,
                final(self).stats.max_wait as int,
            ),
    {
        let ghost pre = *self;
        self.step_fsm(STATE_READY);
        let entry = self.ready.extract_min();
        proof {
            assert(pre.ready@.contains(entry));
            assert(self.table@.dom().contains(entry.task_id));
            assert(pre.record_ok(entry.task_id, s));
        }
        match self.table.lookup(entry.task_id) {
            Some(t) => {
                let ghost t0 = t;
                self.step_fsm(STATE_RUNNING);
                self.table.update_status(t.id, ST_RUNNING);
                let start = self.clock;
                self.events.push(SimEvent::Started { time: start, task: t });
                let wait: i64 = start as i64 - t.arrival as i64;
                let finish: i64 = start as i64 + t.duration as i64;
                let waits: i64 = self.stats.total_wait as i64 + wait;
                let busy: i64 = self.stats.busy_time as i64 + t.duration as i64;
                proof {
                    assert(pre.counters_ok(n));
                    assert(self.events@ == pre.events@.push(SimEvent::Started { time: start, task: t }));
                    lemma_tally_push(pre.events@, SimEvent::Started { time: start, task: t });
                }
                if !(fits_in_i32(wait) && fits_in_i32(finish) && fits_in_i32(waits) && fits_in_i32(busy)) {
                    let ghost with_start = self.events@;
                    self.events.push(SimEvent::Overflow);
                    proof {
                        let evs = self.events@;
                        assert(evs.take(evs.len() - 1) =~= with_start);
                        assert(evs.take(evs.len() - 2) =~= pre.events@);
                        assert(evs.drop_last() =~= with_start);
                        assert(pre.inv(s, n));
                        assert(pre.counters_ok(n));
                        pre.lemma_start_laws(s, n, entry, t0);
                    }
                    return false;
                }
                proof {
                    assert(task_fits(t));
                    assert(run_fits(self.events@));
                }
                self.stats.record_task(t.arrival, start, t.duration, t.abs_deadline());
                self.clock = start + t.duration;
                let missed = self.clock > t.abs_deadline();
                self.events.push(SimEvent::Finished { time: self.clock, id: t.id, missed: missed });
                self.table.update_status(t.id, ST_DONE);
                self.step_fsm(STATE_IDLE);
                proof {
                    self.lemma_run_step(pre, s, n, entry, t0);
                    if pre.good_inv(s, n) {
                        self.lemma_run_step_good(pre, s, n, entry, t0);
                    }
                }
                true
            },
            None => {
                proof {
                    assert(false);
                }
                false
            },
        }
    }

    #[verifier::spinoff_prover]
    #[verifier::rlimit(30)]
    proof fn lemma_run_step_good(&self, pre: Simulation, s: Seq<Task>, n: int, e: HeapEntry, t: Task)
        requires
            pre.inv(s, n),
            pre.good_inv(s, n),
            pre.arrivals_done(s, n),
            pre.queue@.len() == 0,
            self.inv(s, n),
            pre.ready@.contains(e),
            is_most_urgent_in(e, pre.ready@),
            pre.table@.dom().contains(e.task_id),
            t == pre.table@[e.task_id],
            self.ready@ == pre.ready@.remove(e),
            self.queue == pre.queue,
            self.table@ == with_status(with_status(pre.table@, t.id, ST_RUNNING), t.id, ST_DONE),
            self.pending == pre.pending,
            self.clock == pre.clock + t.duration,
            self.stats.done == pre.stats.done + 1,
            self.events@ == pre.events@.push(SimEvent::Started { time: pre.clock, task: t }).push(
                SimEvent::Finished {
                    time: self.clock,
                    id: t.id,
                    missed: self.clock > abs_deadline_of(t),
                },
            ),
        ensures
            self.good_inv(s, n),
    {
        reveal(events_urgent);
        self.lemma_extra_run(pre, s, n, e, t);
        let evs = self.events@;
        let n0 = pre.events@.len() as int;
        let started = SimEvent::Started { time: pre.clock, task: t };
        assert(pre.events@.is_prefix_of(evs));
        assert forall|id: i32| #[trigger] pre.table@.dom().contains(id) implies self.table@[id].arrival
            == pre.table@[id].arrival by {}
        assert(forall|x: HeapEntry| #[trigger] pre.ready@.contains(x) ==> pre.table@.dom().contains(x.task_id));
        assert(forall|j: int| 0 <= j < pre.queue@.len() ==> pre.table@.dom().contains(#[trigger] pre.queue@[j]));
        // the clock now stands at the end of the run just recorded
        assert(evs[n0] == started);
        assert(evs[n0 + 1] is Finished);
        assert(end_before(evs, n0 + 2) == end_before(evs, n0 + 1));
        assert(end_before(evs, n0 + 1) == pre.clock + t.duration);
        lemma_end_before_prefix(pre.events@, evs, n0);
        assert forall|k: int| 0 <= k < evs.len() implies #[trigger] self.idle_start_ok(k, s, n) by {
            if k < n0 {
                assert(evs[k] == pre.events@[k]);
                assert(pre.idle_start_ok(k, s, n));
                lemma_end_before_prefix(pre.events@, evs, k);
                if let SimEvent::Started { time: ta, .. } = evs[k] {
                    if ta > end_before(evs, k) {
                        self.lemma_waiting_run(pre, e, ta as int, s, n);
                    }
                }
            } else if k == n0 {
                if pre.clock > end_before(evs, n0) {
                    self.lemma_waiting_run(pre, e, pre.clock as int, s, n);
                }
            }
        }
        assert(pre.record_ok(e.task_id, s));
        assert(e == entry_of(t));
        assert(self.queue@.len() == 0);
        // entries and arrivals seen by the new start
        assert forall|x: HeapEntry| #[trigger] self.ready@.contains(x) implies !more_urgent(x, e) && self.table@[x.task_id].arrival == pre.table@[x.task_id].arrival by {
            assert(pre.ready@.contains(x));
            assert(pre.table@.dom().contains(x.task_id));
        }
        assert forall|k: int| 0 <= k < evs.len() implies self.start_still_ok(#[trigger] evs[k], s, n) by {
            if k < n0 {
                assert(evs[k] == pre.events@[k]);
                assert(pre.start_still_ok(pre.events@[k], s, n));
                if let SimEvent::Started { time: ta, task: x } = evs[k] {
                    assert forall|y: HeapEntry|
                        #[trigger] self.ready@.contains(y) && self.table@[y.task_id].arrival <= ta implies !more_urgent(
                            y,
                            entry_of(x),
                        ) by {
                        assert(pre.ready@.contains(y));
                        assert(self.table@[y.task_id].arrival == pre.table@[y.task_id].arrival);
                    }
                }
            } else if k == n0 {
                assert forall|y: HeapEntry|
                    #[trigger] self.ready@.contains(y) && self.table@[y.task_id].arrival <= pre.clock implies !more_urgent(
                        y,
                        entry_of(t),
                    ) by {
                    assert(pre.ready@.contains(y));
                }
                assert forall|j: int| self.pending <= j < n implies #[trigger] s[j].arrival > pre.clock by {
                    assert(s[self.pending as int].arrival <= s[j].arrival);
                }
            }
        }
        pre.lemma_start_laws(s, n, e, t);
        lemma_laws_push_finish(pre.events@.push(started), evs.last(), s, n);
        assert(evs == pre.events@.push(started).push(evs.last()));
    }

    proof fn lemma_run_step(&self, pre: Simulation, s: Seq<Task>, n: int, e: HeapEntry, t: Task)
        requires
            pre.inv(s, n),
            pre.ready@.contains(e),
            is_most_urgent_in(e, pre.ready@),
            pre.table@.dom().contains(e.task_id),
            t == pre.table@[e.task_id],
            self.ready.wf(),
            self.ready@ == pre.ready@.remove(e),
            self.queue == pre.queue,
            self.table.wf(),
            self.table@ == with_status(with_status(pre.table@, t.id, ST_RUNNING), t.id, ST_DONE),
            self.table.free_slots() == pre.table.free_slots(),
            self.fsm.state == STATE_IDLE,
            self.pending == pre.pending,
            self.clock == pre.clock + t.duration,
            self.stats == recorded(pre.stats, t.arrival, pre.clock, t.duration, abs_deadline_of(t) as i32),
            self.events@ == pre.events@.push(SimEvent::Started { time: pre.clock, task: t }).push(
                SimEvent::Finished {
                    time: self.clock,
                    id: t.id,
                    missed: self.clock > abs_deadline_of(t),
                },
            ),
            run_fits(pre.events@.push(SimEvent::Started { time: pre.clock, task: t })),
        ensures
            self.inv(s, n),
    {
        let id = e.task_id;
        assert(self.events@.take(pre.events@.len() as int + 1) =~= pre.events@.push(SimEvent::Started { time: pre.clock, task: t }));
        assert(pre.events@.is_prefix_of(self.events@));
        lemma_starts_fit_extend(pre.events@, self.events@);
        assert(pre.record_ok(id, s));
        assert(pre.counters_ok(n));
        assert(self.table@[id] == Task { status: ST_DONE, ..t });
        assert forall|id2: i32| #[trigger] self.table@.dom().contains(id2) implies self.record_ok(id2, s) by {
            assert(pre.record_ok(id2, s));
            let k = choose|k: int| 0 <= k < pre.pending && s[k].id == id2 && same_task_but_status(pre.table@[id2], s[k]);
            assert(same_task_but_status(self.table@[id2], s[k]));
        }
        assert forall|k: int| 0 <= k < self.pending implies self.table@.dom().contains(#[trigger] s[k].id) by {
            assert(pre.table@.dom().contains(s[k].id));
        }
        assert forall|j: int| 0 <= j < self.queue@.len() implies self.table@.dom().contains(#[trigger] self.queue@[j]) by {
            assert(pre.table@.dom().contains(pre.queue@[j]));
        }
        assert forall|x: HeapEntry| #[trigger] self.ready@.contains(x) implies self.table@.dom().contains(x.task_id)
            && x == entry_of(self.table@[x.task_id]) by {
            assert(pre.ready@.contains(x));
        }
        let evs = self.events@;
        let n0 = pre.events@.len();
        assert forall|k: int| 0 <= k < evs.len() implies !(#[trigger] evs[k] is BadTransition)
            && self.started_ok(evs[k], s, n) by {
            if k < n0 {
                assert(evs[k] == pre.events@[k]);
                assert(pre.started_ok(pre.events@[k], s, n));
            } else if k == n0 {
                let kk = choose|kk: int| 0 <= kk < pre.pending && s[kk].id == id && same_task_but_status(pre.table@[id], s[kk]);
                assert(same_task_but_status(t, s[kk]));
            }
        }
        let started = SimEvent::Started { time: pre.clock, task: t };
        lemma_tally_push(pre.events@, started);
        lemma_tally_push(pre.events@.push(started), evs.last());
        assert(evs.drop_last() == pre.events@.push(started));
        assert forall|k: int| 0 <= k < evs.len() implies #[trigger] followed_by_finish(evs, k) by {
            if k < n0 {
                assert(evs[k] == pre.events@[k]);
                if k + 1 < n0 {
                    assert(followed_by_finish(pre.events@, k));
                    assert(evs[k + 1] == pre.events@[k + 1]);
                } else {
                    assert(followed_by_finish(pre.events@, k));
                }
            }
        }
    }

    proof fn lemma_admit_step_good(
        &self,
        pre: Simulation,
        s: Seq<Task>,
        n: int,
        t: Task,
        outcome: TableInsert,
    )
        requires
            pre.inv(s, n),
            pre.good_inv(s, n),
            self.inv(s, n),
            pre.pending < n,
            s[pre.pending as int].arrival <= pre.clock,
            t == (Task { status: ST_QUEUED, ..s[pre.pending as int] }),
            self.pending == pre.pending + 1,
            self.clock == pre.clock,
            self.stats == pre.stats,
            self.ready == pre.ready,
            pre.queue@.len() < 1024 ==> self.queue@ == pre.queue@.push(t.id),
            pre.table@.dom().contains(t.id) ==> outcome == TableInsert::DuplicateId,
            !pre.table@.dom().contains(t.id) && outcome != TableInsert::Inserted ==> outcome
                == TableInsert::PoolFull,
            outcome == TableInsert::Inserted ==> self.table@ == pre.table@.insert(t.id, t),
            outcome == TableInsert::PoolFull <==> !pre.table@.dom().contains(t.id)
                && pre.table.free_slots() == 0,
            pre.queue@.len() < 1024 && outcome == TableInsert::Inserted ==> self.events@ == pre.events@,
        ensures
            self.good_inv(s, n),
    {
        let p = pre.pending as int;
        assert(pre.counters_ok(n));
        assert(pre.queue@.len() < 1024);
        assert(!pre.table@.dom().contains(t.id)) by {
            if pre.table@.dom().contains(t.id) {
                assert(pre.record_ok(t.id, s));
                let k = choose|k: int| 0 <= k < pre.pending && s[k].id == t.id && same_task_but_status(pre.table@[t.id], s[k]);
                assert(s[k].id != s[p].id);
            }
        }
        assert(outcome == TableInsert::Inserted);
        assert(self.events@ == pre.events@);
        self.lemma_extra_admit(pre, s, n, t);
        assert forall|id: i32| #[trigger] pre.table@.dom().contains(id) implies self.table@[id].arrival
            == pre.table@[id].arrival by {
            assert(id != t.id);
        }
        assert(self.table@[s[p].id] == t);
        assert(forall|e: HeapEntry| #[trigger] pre.ready@.contains(e) ==> pre.table@.dom().contains(e.task_id));
        assert(forall|j: int| 0 <= j < pre.queue@.len() ==> pre.table@.dom().contains(#[trigger] pre.queue@[j]));
        if self.clock > end_before(self.events@, self.events@.len() as int) {
            self.lemma_waiting_admit(pre, self.clock as int, s, n);
        }
        assert forall|k: int| 0 <= k < self.events@.len() implies #[trigger] self.idle_start_ok(k, s, n) by {
            assert(pre.idle_start_ok(k, s, n));
            if let SimEvent::Started { time: ta, .. } = self.events@[k] {
                if ta > end_before(self.events@, k) {
                    self.lemma_waiting_admit(pre, ta as int, s, n);
                }
            }
        }
        assert forall|k: int| 0 <= k < self.events@.len() implies self.start_still_ok(#[trigger] self.events@[k], s, n) by {
            let ev = self.events@[k];
            assert(pre.start_still_ok(ev, s, n));
            if let SimEvent::Started { time: ta, task: x } = ev {
                assert forall|e: HeapEntry|
                    #[trigger] self.ready@.contains(e) && self.table@[e.task_id].arrival <= ta implies !more_urgent(
                        e,
                        entry_of(x),
                    ) by {
                    assert(pre.ready@.contains(e));
                    assert(pre.table@.dom().contains(e.task_id));
                    assert(e.task_id != t.id);
                    assert(self.table@[e.task_id] == pre.table@[e.task_id]);
                }
                assert forall|j: int| 0 <= j < self.queue@.len() implies self.table@[#[trigger] self.queue@[j]].arrival > ta by {
                    if j < pre.queue@.len() {
                        assert(pre.table@.dom().contains(pre.queue@[j]));
                        assert(pre.queue@[j] != t.id);
                        assert(self.table@[self.queue@[j]] == pre.table@[pre.queue@[j]]);
                    } else {
                        assert(s[p].arrival > ta);
                    }
                }
            }
        }
    }

    proof fn lemma_admit_step(
        &self,
        pre: Simulation,
        s: Seq<Task>,
        n: int,
        t: Task,
        outcome: TableInsert,
    )
        requires
            pre.inv(s, n),
            pre.pending < n,
            s[pre.pending as int].arrival <= pre.clock,
            t == (Task { status: ST_QUEUED, ..s[pre.pending as int] }),
            self.pending == pre.pending + 1,
            self.clock == pre.clock,
            self.stats == pre.stats,
            self.ready == pre.ready,
            self.fsm == pre.fsm,
            self.queue.wf(),
            pre.queue@.len() >= 1024 ==> self.queue@ == pre.queue@,
            pre.queue@.len() < 1024 ==> self.queue@ == pre.queue@.push(t.id),
            self.table.wf(),
            pre.table@.dom().contains(t.id) ==> outcome == TableInsert::DuplicateId,
            !pre.table@.dom().contains(t.id) && outcome != TableInsert::Inserted ==> outcome
                == TableInsert::PoolFull,
            outcome == TableInsert::Inserted ==> self.table@ == pre.table@.insert(t.id, t),
            outcome != TableInsert::Inserted ==> self.table@ == pre.table@,
            outcome == TableInsert::PoolFull <==> !pre.table@.dom().contains(t.id)
                && pre.table.free_slots() == 0,
            outcome == TableInsert::Inserted ==> self.table.free_slots() + 1 == pre.table.free_slots(),
            outcome != TableInsert::Inserted ==> self.table.free_slots() == pre.table.free_slots(),
            pre.events@.is_prefix_of(self.events@),
            forall|k: int| pre.events@.len() <= k < self.events@.len() ==> (#[trigger] self.events@[k] is QueueFull
                || self.events@[k] is DuplicateId || self.events@[k] is PoolFull),
        ensures
            self.inv(s, n),
    {
        let p = pre.pending as int;
        assert(task_fits(s[p]));
        assert(outcome != TableInsert::PoolFull);
        assert(self.table@.dom().contains(t.id));
        assert forall|id: i32| #[trigger] self.table@.dom().contains(id) implies self.record_ok(id, s) by {
            if id == t.id && outcome == TableInsert::Inserted {
                assert(same_task_but_status(t, s[p]));
            } else {
                assert(pre.record_ok(id, s));
                let k = choose|k: int| 0 <= k < pre.pending && s[k].id == id && same_task_but_status(pre.table@[id], s[k]);
                assert(self.table@[id] == pre.table@[id]);
            }
        }
        assert forall|k: int| 0 <= k < self.pending implies self.table@.dom().contains(#[trigger] s[k].id) by {
            if k < p {
                assert(pre.table@.dom().contains(s[k].id));
            }
        }
        assert forall|j: int| 0 <= j < self.queue@.len() implies self.table@.dom().contains(#[trigger] self.queue@[j]) by {
            if j < pre.queue@.len() {
                assert(pre.table@.dom().contains(pre.queue@[j]));
            }
        }
        assert forall|e: HeapEntry| #[trigger] self.ready@.contains(e) implies self.table@.dom().contains(e.task_id)
            && e == entry_of(self.table@[e.task_id]) by {
            assert(pre.ready@.contains(e));
        }
        assert forall|k: int| 0 <= k < self.events@.len() implies !(#[trigger] self.events@[k] is BadTransition) && !(self.events@[k] is Overflow) && self.started_ok(self.events@[k], s, n) by {
            if k < pre.events@.len() {
                assert(self.events@[k] == pre.events@[k]);
                assert(pre.started_ok(pre.events@[k], s, n));
            }
        }
        lemma_quiet_extend(pre.events@, self.events@);
        lemma_starts_fit_extend(pre.events@, self.events@);
        let evs = self.events@;
        assert forall|a: int, b: int| 0 <= a < b < evs.len() implies match (#[trigger] evs[a], #[trigger] evs[b]) {
            (SimEvent::Started { time: ta, task: x }, SimEvent::Started { time: tb, task: y }) =>
                ta + x.duration <= tb,
            _ => true,
        } by {
            if b < pre.events@.len() {
                assert(evs[a] == pre.events@[a]);
                assert(evs[b] == pre.events@[b]);
            }
        }
    }
}

/// Runs the simulation on the first `num_tasks` tasks, which are first
/// sorted by arrival time (stably, in place).  The loop admits the tasks
/// whose arrival has come, moves the queued ids into the ready heap, then
/// runs the most urgent ready task, or jumps the clock to the next
/// arrival, or, with nothing left, shuts the state machine down.  When
/// running a task would take the clock, its wait or a running total out of
/// the `i32` range, the run stops after recording its start and an
/// `Overflow` event.
pub fn run_simulation(tasks: &mut [Task; MAX_TASKS], num_tasks: usize) -> (r: SimReport)
    requires
        simulation_input_ok(old(tasks)@, num_tasks as int),
    ensures
        is_stable_sort_by_arrival(
            old(tasks)@.take(num_tasks as int),
            final(tasks)@.take(num_tasks as int),
        ),
        final(tasks)@.skip(num_tasks as int) == old(tasks)@.skip(num_tasks as int),
        r.metrics.total == num_tasks,
        overflowed(r.events@) ==> stopped_on_overflow(r.events@) && r.final_state == STATE_RUNNING
            && tally(r.events@.take(r.events@.len() - 2)) == (
                r.metrics.done as nat,
                r.metrics.total_wait as int,
                r.metrics.busy_time as int,
                r.metrics.missed as nat,
                r.metrics.max_wait as int,
            ) && starts_paired(r.events@.take(r.events@.len() - 2)) && schedule_sound(
                r.events@.drop_last(),
                final(tasks)@,
                num_tasks as int,
            ),
        !overflowed(r.events@) ==> {
            &&& r.final_state == STATE_SHUTDOWN
            &&& tally(r.events@) == (
                r.metrics.done as nat,
                r.metrics.total_wait as int,
                r.metrics.busy_time as int,
                r.metrics.missed as nat,
                r.metrics.max_wait as int,
            )
            &&& starts_fit(r.events@)
            &&& starts_paired(r.events@)
            &&& schedule_sound(r.events@, final(tasks)@, num_tasks as int)
            &&& forall|k: int|
                0 <= k < r.events@.len() ==> (#[trigger] r.events@[k] matches SimEvent::Started { time, task }
                    ==> time + task.duration <= r.metrics.end_time)
        },
        ids_distinct_positive(old(tasks)@, num_tasks as int) ==> schedule_urgent(
            if overflowed(r.events@) {
                r.events@.drop_last()
            } else {
                r.events@
            },
            final(tasks)@,
            num_tasks as int,
        ),
        !overflowed(r.events@) && ids_distinct_positive(old(tasks)@, num_tasks as int) ==> {
            &&& r.metrics.done == num_tasks
            &&& forall|j: int| 0 <= j < num_tasks ==> runs_task(r.events@, (#[trigger] final(tasks)@[j]).id)
            &&& r.metrics.end_time == end_before(r.events@, r.events@.len() as int)
        },
{
    let n = num_tasks;
    let ghost s0 = tasks@;
    sort_by_arrival(tasks, n);
    let ghost s = tasks@;
    proof {
        lemma_sorted_input(s0, s, n as int);
    }
    let mut sim = Simulation {
        queue: Queue::new(),
        ready: Heap::new(),
        table: HashTable::new(),
        fsm: Fsm::new(),
        stats: Metrics::new(),
        clock: 0,
        pending: 0,
        events: Vec::new(),
    };
    sim.stats.total = n as i32;
    proof {
        assert(sim.events@ =~= Seq::<SimEvent>::empty());
        assert(sim.queue@.len() == 0);
        assert(sim.ready@.len() == 0);
        assert(sim.counters_ok(n as int));
        assert(sim.table.free_slots() + sim.pending >= POOL_SIZE);
        assert(forall|id: i32| !#[trigger] sim.table@.dom().contains(id));
        assert(sim.inv(s, n as int));
        if ids_distinct_positive(s, n as int) {
            reveal(events_urgent);
            assert(sim.good_inv(s, n as int));
        }
    }
    loop
        invariant_except_break
            sim.inv(s, n as int),
            ids_distinct_positive(s, n as int) ==> sim.good_inv(s, n as int),
        invariant
            s == tasks@,
            ids_distinct_positive(s0, n as int) ==> ids_distinct_positive(s, n as int),
            sim.stats.total == n,
        ensures
            overflowed(sim.events@) ==> stopped_on_overflow(sim.events@) && sim.fsm.state == STATE_RUNNING
                && tally(sim.events@.take(sim.events@.len() - 2)) == (
                sim.stats.done as nat,
                sim.stats.total_wait as int,
                sim.stats.busy_time as int,
                sim.stats.missed as nat,
                sim.stats.max_wait as int,
            ) && starts_paired(sim.events@.take(sim.events@.len() - 2)) && schedule_sound(
                sim.events@.drop_last(),
                s,
                n as int,
            ) && (ids_distinct_positive(s, n as int) ==> schedule_urgent(sim.events@.drop_last(), s, n as int)),
            !overflowed(sim.events@) ==> {
                &&& sim.fsm.state == STATE_SHUTDOWN
                &&& sim.counters_ok(n as int)
                &&& forall|k: int| 0 <= k < sim.events@.len() ==> sim.started_ok(#[trigger] sim.events@[k], s, n as int)
                &&& starts_fit(sim.events@)
                &&& schedule_sound(sim.events@, s, n as int)
            },
            !overflowed(sim.events@) && ids_distinct_positive(s, n as int) ==> {
                &&& sim.stats.done == n
                &&& schedule_urgent(sim.events@, s, n as int)
                &&& forall|j: int| 0 <= j < n ==> runs_task(sim.events@, (#[trigger] s[j]).id)
                &&& sim.clock == end_before(sim.events@, sim.events@.len() as int)
            },
        decreases sim.measure(s, n as int),
    {
        let ghost m0 = sim.measure(s, n as int);
        sim.admit_arrivals(tasks, n);
        sim.drain_queue(Ghost(s), Ghost(n as int));
        if !sim.ready.is_empty() {
            if !sim.run_next(Ghost(s), Ghost(n as int)) {
                break;
            }
            assert(sim.measure(s, n as int) < m0);
        } else if sim.pending < n {
            let ghost pre = sim;
            sim.clock = tasks[sim.pending].arrival;
            proof {
                sim.lemma_jump(pre, s, n as int);
            }
        } else {
            proof {
                assert(sim.counters_ok(n as int));
            }
            let ghost before = sim;
            sim.step_fsm(STATE_SHUTDOWN);
            proof {
                let evs = sim.events@;
                assert(before.counters_ok(n as int));
                assert forall|k: int| 0 <= k < evs.len() implies (#[trigger] evs[k] matches SimEvent::Started { time, task }
                    ==> task.arrival <= time && exists|j: int| 0 <= j < n && same_task_but_status(task, #[trigger] s[j])) by {
                    assert(before.started_ok(evs[k], s, n as int));
                }
                assert(schedule_sound(evs, s, n as int));
                if evs.len() > 0 {
                    assert(!(evs[evs.len() - 1] is Overflow));
                }
                if ids_distinct_positive(s, n as int) {
                    reveal(events_urgent);
                    assert(before.good_inv(s, n as int));
                    assert(schedule_urgent(evs, s, n as int));
                    assert(before.extra_ok(s, n as int));
                    assert(before.clock_settled(s, n as int));
                    assert(before.counters_ok(n as int));
                    assert forall|k: int| 0 <= k < evs.len() implies (#[trigger] evs[k] matches SimEvent::Started { task, .. }
                        ==> exists|j: int| 0 <= j < n && same_task_but_status(task, #[trigger] s[j])) by {
                        assert(before.started_ok(evs[k], s, n as int));
                    }
                    lemma_all_started(evs, s, n as int);
                }
            }
            break;
        }
    }
    sim.stats.end_time = sim.clock;
    SimReport { events: sim.events, metrics: sim.stats, final_state: sim.fsm.state }
}

/// The sorted tasks keep the bounds of the input: each is an input task.
proof fn lemma_sorted_input(s0: Seq<Task>, s: Seq<Task>, n: int)
    requires
        simulation_input_ok(s0, n),
        s.len() == s0.len(),
        is_stable_sort_by_arrival(s0.take(sorted_len(n as usize, s0.len())), s.take(sorted_len(n as usize, s0.len()))),
    ensures
        forall|k: int| 0 <= k < n ==> task_fits(#[trigger] s[k]),
        forall|a: int, b: int| 0 <= a < b < n ==> #[trigger] s[a].arrival <= #[trigger] s[b].arrival,
        ids_distinct_positive(s0, n) ==> ids_distinct_positive(s, n),
{
    assert(sorted_len(n as usize, s0.len()) == n);
    let p = choose|p: Seq<int>| stable_rearrangement(s0.take(n), s.take(n), p);
    assert forall|k: int| 0 <= k < n implies task_fits(#[trigger] s[k]) by {
        assert(s.take(n)[k] == s0.take(n)[p[k]]);
        let j = p[k];
        assert(s[k] == s0[j]);
        assert(task_fits(s0[j]));
    }
    assert forall|a: int, b: int| 0 <= a < b < n implies #[trigger] s[a].arrival <= #[trigger] s[b].arrival by {
        assert(s.take(n)[a] == s[a]);
        assert(s.take(n)[b] == s[b]);
    }
    if ids_distinct_positive(s0, n) {
        assert forall|k: int| 0 <= k < n implies #[trigger] s[k].id > 0 by {
            assert(s.take(n)[k] == s0.take(n)[p[k]]);
            assert(s0[p[k]].id > 0);
        }
        assert forall|a: int, b: int| 0 <= a < b < n implies #[trigger] s[a].id != #[trigger] s[b].id by {
            assert(s.take(n)[a] == s0.take(n)[p[a]]);
            assert(s.take(n)[b] == s0.take(n)[p[b]]);
            assert(p[a] != p[b]);
            if p[a] < p[b] {
                assert(s0[p[a]].id != s0[p[b]].id);
            } else {
                assert(s0[p[b]].id != s0[p[a]].id);
            }
        }
    }
}

/// Appending only events that are neither starts nor finishes keeps the
/// totals and the pairing.
proof fn lemma_quiet_extend(a: Seq<SimEvent>, b: Seq<SimEvent>)
    requires
        a.is_prefix_of(b),
        starts_paired(a),
        finishes_paired(a),
        forall|k: int| a.len() <= k < b.len() ==> !(#[trigger] b[k] is Started) && !(b[k] is Finished),
    ensures
        tally(b) == tally(a),
        starts_paired(b),
        finishes_paired(b),
    decreases b.len(),
{
    if b.len() > a.len() {
        let c = b.drop_last();
        assert(a.is_prefix_of(c));
        assert forall|k: int| a.len() <= k < c.len() implies !(#[trigger] c[k] is Started) && !(c[k] is Finished) by {
            assert(c[k] == b[k]);
        }
        lemma_quiet_extend(a, c);
        assert(b =~= c.push(b.last()));
        lemma_tally_push(c, b.last());
        assert forall|k: int| 0 <= k < b.len() implies #[trigger] followed_by_finish(b, k) by {
            if k < c.len() {
                assert(followed_by_finish(c, k));
                assert(b[k] == c[k]);
                if k + 1 < c.len() {
                    assert(b[k + 1] == c[k + 1]);
                }
            }
        }
        assert forall|k: int| 0 <= k < b.len() && #[trigger] b[k] is Finished implies k > 0 && b[k - 1] is Started
            && b[k] == finish_of(b[k - 1]) by {
            assert(b[k] == c[k]);
            assert(b[k - 1] == c[k - 1]);
        }
    } else {
        assert(a =~= b);
    }
}

} // verus!
