//! What the worker owes for each event.

use std::time::Duration;

use vstd::prelude::*;

use crate::cancel::marks;
use crate::channel::Line;
use crate::command::Cmd;
use crate::laws::{law_drain_all, law_due_once};
use crate::machine::{catch_up, target_tick, Action, Event, Machine, Phase, WorkerModel};
use crate::promises::{law_compensation, law_delay, law_fitting, law_marks, law_target};
use crate::shared::{bumped, SharedModel};
use crate::system::{
    law_obeyed, law_swept_out, law_tick_expires, lemma_drained, lemma_handed_out_upto,
};
use crate::time::duration_millis;
use crate::worker::event_of;

verus! {

/// Where a worker comes to that answered `start` when the callbacks that it asks for end as
/// `outcomes` says, one after the other.
pub open spec fn answered<T>(start: (Machine<T>, Action<T>), outcomes: Seq<bool>) -> (
    Machine<T>,
    Action<T>,
)
    decreases outcomes.len(),
{
    if outcomes.len() > 0 && start.1 is Fire {
        answered(start.0.stepped(Event::Fired(outcomes[0])), outcomes.skip(1))
    } else {
        start
    }
}

/// The ids that it asks to fire on the way.
pub open spec fn fired_ids<T>(start: (Machine<T>, Action<T>), outcomes: Seq<bool>) -> Seq<T>
    decreases outcomes.len(),
{
    match start.1 {
        Action::Fire(id) => if outcomes.len() > 0 {
            seq![id] + fired_ids(start.0.stepped(Event::Fired(outcomes[0])), outcomes.skip(1))
        } else {
            seq![id]
        },
        _ => Seq::empty(),
    }
}

/// The ids of `ids` without a cancellation marker, in order.
pub open spec fn uncancelled<T>(ids: Seq<T>, cancelled: Map<T, usize>) -> Seq<T> {
    ids.filter(|id: T| !(cancelled.contains_key(id) && cancelled[id] > 0))
}

/// The last `n` of `ids`, the last one first.
pub open spec fn from_behind<T>(ids: Seq<T>, n: int) -> Seq<T> {
    ids.skip(ids.len() - n).reverse()
}

/// One more id behind the others.
proof fn lemma_from_behind<T>(ids: Seq<T>, n: int, cancelled: Map<T, usize>)
    requires
        0 < n <= ids.len(),
    ensures
        from_behind(ids, n) == seq![ids.last()] + from_behind(ids.drop_last(), n - 1),
        uncancelled(from_behind(ids, n), cancelled) == if marks(cancelled, ids.last()) > 0 {
            uncancelled(from_behind(ids.drop_last(), n - 1), cancelled)
        } else {
            seq![ids.last()] + uncancelled(from_behind(ids.drop_last(), n - 1), cancelled)
        },
{
    let keep = |id: T| !(cancelled.contains_key(id) && cancelled[id] > 0);
    let last = seq![ids.last()];
    let rest = from_behind(ids.drop_last(), n - 1);
    assert(from_behind(ids, n) =~= last + rest);
    Seq::filter_distributes_over_add(last, rest, keep);
    assert(last.filter(keep) =~= if keep(ids.last()) {
        last
    } else {
        Seq::empty()
    }) by {
        reveal(Seq::filter);
        assert(last.drop_last() =~= Seq::empty());
        assert(last.drop_last().filter(keep) =~= Seq::empty());
    }
    assert(Seq::<T>::empty() + uncancelled(rest, cancelled) =~= uncancelled(rest, cancelled));
}

/// A worker that drains fires the uncancelled ones of the ids that it has room for, the last
/// one first, and then rests.
proof fn lemma_drain_run<T>(m: Machine<T>, outcomes: Seq<bool>)
    requires
        m.worker.left <= m.worker.pending.len(),
        m.worker.left <= outcomes.len(),
        m.worker.phase == Phase::Draining || m.worker.phase == Phase::Closing || m.worker.phase
            == Phase::Flushing,
    ensures
        ({
            let start = m.drained();
            let end = answered(start, outcomes);
            let left = m.worker.left as int;
            let kept = m.worker.pending.take(m.worker.pending.len() - left);
            &&& fired_ids(start, outcomes) == uncancelled(
                from_behind(m.worker.pending, left),
                m.shared.cancelled,
            )
            &&& end.1 == match m.worker.phase {
                Phase::Draining => Action::<T>::Wait,
                Phase::Closing => Action::<T>::Poll,
                _ => Action::<T>::Stop,
            }
            &&& end.0.worker == (WorkerModel {
                pending: kept,
                left: 0,
                phase: match m.worker.phase {
                    Phase::Draining => Phase::Idle,
                    Phase::Closing => Phase::Collecting,
                    _ => Phase::Stopped,
                },
                ..m.worker
            })
            &&& end.0.shared == (SharedModel { metrics: end.0.shared.metrics, ..m.shared })
            &&& end.0.shared.metrics.active == m.shared.metrics.active
            &&& end.0.shared.metrics.inserted == m.shared.metrics.inserted
            &&& end.0.shared.metrics.dropped == m.shared.metrics.dropped
            &&& end.0.shared.metrics.pending == kept.len() as usize
        }),
    decreases m.worker.left,
{
    let pending = m.worker.pending;
    let left = m.worker.left as int;
    if left == 0 {
        assert(pending.take(pending.len() as int) =~= pending);
        assert(from_behind(pending, 0) =~= Seq::empty());
        reveal(Seq::filter);
        assert(uncancelled(from_behind(pending, 0), m.shared.cancelled) =~= Seq::empty());
        assert(answered(m.drained(), outcomes) == m.drained());
    } else {
        let id = pending.last();
        let rest = Machine { worker: m.worker.popped(), shared: m.shared };
        lemma_from_behind(pending, left, m.shared.cancelled);
        assert(pending.drop_last().take(pending.len() - left) =~= pending.take(
            pending.len() - left,
        ));
        if marks(m.shared.cancelled, id) > 0 {
            lemma_drain_run(rest, outcomes);
        } else {
            let next = Machine { worker: rest.worker, shared: rest.shared.fired(outcomes[0]) };
            lemma_drain_run(next, outcomes.skip(1));
            assert(m.drained() == (rest, Action::Fire(id)));
            assert(rest.stepped(Event::Fired(outcomes[0])) == next.drained());
        }
    }
}

/// A worker is idle, collecting or stopped when no callback runs: when idle it takes commands,
/// ticks and the end of the channel, when collecting commands and the end of the channel, when
/// stopped nothing.  While a callback runs it takes its end.  A command needs a timeout
/// within the reach of the clock.
pub proof fn law_accepts<T>(worker: WorkerModel<T>, elapsed: Duration, returned: bool, id: T)
    ensures
        worker.accepts(Event::Ticked(elapsed)) <==> worker.phase == Phase::Idle,
        worker.accepts(Event::Exhausted) <==> worker.phase == Phase::Idle || worker.phase
            == Phase::Collecting,
        worker.accepts(Event::Fired(returned)) <==> worker.phase == Phase::Draining
            || worker.phase == Phase::Closing || worker.phase == Phase::Flushing,
        worker.accepts(Event::Command(Cmd::Shutdown)) <==> worker.accepts(Event::Exhausted),
        worker.accepts(Event::Command(Cmd::Remove(id))) <==> worker.accepts(Event::Exhausted),
{
}

/// An idle or collecting worker takes an insert or reset exactly if the tick at which its
/// timeout is over is a `u64`, and the clock is not less than 4096 ticks from its end.
pub proof fn law_accepts_timeout<T>(worker: WorkerModel<T>, id: T, timeout: Duration)
    requires
        worker.tick_len >= 1,
        worker.phase == Phase::Idle || worker.phase == Phase::Collecting,
    ensures
        ({
            let ms = duration_millis(timeout) as int;
            let t = worker.tick_len;
            let room = 0xffff_ffff_ffff_ffff - worker.wheel.now;
            let fits = worker.accepts(Event::Command(Cmd::Insert(id, timeout)));
            &&& fits <==> worker.accepts(Event::Command(Cmd::Reset(id, timeout)))
            &&& room < 4096 ==> !fits
            &&& room >= 4096 && ms < (room + 1) * t ==> fits
            &&& (room + 1) * t <= ms < (u64::MAX + 1) * t ==> !fits
            &&& ms >= (u64::MAX + 1) * t ==> (fits <==> room >= 0xffff_ffff_ffff_ffff)
        }),
{
    law_fitting(worker.wheel.now, duration_millis(timeout) as int, worker.tick_len);
}

/// A tick moves the wheel on by no more ticks than have passed, by one at least if one has
/// passed, by ten at most, and short of the clock only to a multiple of ten.  The tasks that
/// have come due by then, returned here, are handed out in the order in which they fell due,
/// and join the pending ones.  Of these the worker takes as many as a batch holds, or all if
/// there are fewer, fires those without a cancellation marker, the last one first, and is idle
/// again.
pub proof fn law_tick<T>(m: Machine<T>, elapsed: Duration, outcomes: Seq<bool>) -> (due_now: Seq<T>)
    requires
        m.worker.sound(),
        m.worker.phase == Phase::Idle,
        m.worker.tick_len >= 1,
        m.worker.wheel.now >= 0,
    ensures
        ({
            let start = m.stepped(Event::Ticked(elapsed));
            let end = answered(start, outcomes);
            let ms = duration_millis(elapsed) as int;
            let t = m.worker.tick_len;
            let now = m.worker.wheel.now;
            let next = end.0.worker.wheel.now;
            let pool = m.worker.pending + due_now;
            let room = if pool.len() < m.worker.batch {
                pool.len() as int
            } else {
                m.worker.batch as int
            };
            &&& start.0.worker.wheel.now == next
            &&& now <= next <= now + 10
            &&& due_now == m.worker.wheel.handed_out_upto((next - now) as nat)
            &&& ms < (u64::MAX + 1) * t ==> {
                &&& next > now ==> next * t <= ms
                &&& (now + 1) * t <= ms ==> next > now
                &&& (next + 1) * t <= ms ==> next % 10 == 0
                &&& forall|k: int| now < k < next ==> #[trigger] (k % 10) != 0
            }
            &&& due_now.no_duplicates()
            &&& forall|id: T| #[trigger]
                due_now.contains(id) <==> exists|due: int|
                    m.worker.wheel.due_at(id, due) && due <= next
            &&& forall|i: int, j: int, d: int, e: int|
                0 <= i < j < due_now.len() && #[trigger] m.worker.wheel.due_at(due_now[i], d)
                    && #[trigger] m.worker.wheel.due_at(due_now[j], e) ==> d <= e
            &&& forall|id: T, due: int| #[trigger]
                end.0.worker.wheel.due_at(id, due) <==> m.worker.wheel.due_at(id, due) && due
                    > next
            &&& outcomes.len() >= room ==> {
                &&& fired_ids(start, outcomes) == uncancelled(
                    from_behind(pool, room),
                    m.shared.cancelled,
                )
                &&& end.1 is Wait
                &&& end.0.worker == (WorkerModel {
                    wheel: end.0.worker.wheel,
                    pending: pool.take(pool.len() - room),
                    left: 0,
                    ..m.worker
                })
                &&& end.0.shared == (SharedModel { metrics: end.0.shared.metrics, ..m.shared })
                &&& end.0.shared.metrics.inserted == m.shared.metrics.inserted
                &&& end.0.shared.metrics.dropped == m.shared.metrics.dropped
                &&& end.0.shared.metrics.pending == (pool.len() - room) as usize
                &&& end.0.shared.metrics.active == if next > now {
                    end.0.worker.wheel.waiting().len() as usize
                } else {
                    m.shared.metrics.active
                }
            }
        }),
{
    let ms = duration_millis(elapsed) as int;
    let t = m.worker.tick_len;
    let wheel = m.worker.wheel;
    let target = target_tick(ms, t);
    let n = catch_up(wheel.now, target) as nat;
    law_target(ms, t);
    if ms < (u64::MAX + 1) * t {
        law_compensation(wheel.now, ms, t);
    }
    law_tick_expires(m.worker, n);
    lemma_handed_out_upto(wheel, n);
    let due_now = wheel.handed_out_upto(n);
    lemma_handed_out_order(wheel, n);
    let mid = m.ticked(elapsed);
    let start = m.stepped(Event::Ticked(elapsed));
    lemma_answered_wheel(mid, outcomes);
    assert forall|id: T, due: int| #[trigger] wheel.after(n).due_at(id, due) <==> wheel.due_at(
        id,
        due,
    ) && due > wheel.now + n by {
        crate::laws::lemma_after(wheel, n);
    }
    if outcomes.len() >= mid.worker.left {
        lemma_drain_run(mid, outcomes);
    }
    due_now
}

/// Draining does not touch the wheel.
proof fn lemma_answered_wheel<T>(m: Machine<T>, outcomes: Seq<bool>)
    requires
        m.worker.pending.no_duplicates(),
    ensures
        m.drained().0.worker.wheel == m.worker.wheel,
        answered(m.drained(), outcomes).0.worker.wheel == m.worker.wheel,
    decreases outcomes.len(),
{
    lemma_drained(m);
    let start = m.drained();
    if outcomes.len() > 0 && start.1 is Fire {
        let next = Machine {
            worker: start.0.worker,
            shared: start.0.shared.fired(outcomes[0]),
        };
        lemma_answered_wheel(next, outcomes.skip(1));
    }
}

/// What falls due first is handed out first.
proof fn lemma_handed_out_order<T>(m: crate::model::WheelModel<T>, n: nat)
    requires
        m.wf(),
    ensures
        forall|i: int, j: int, d: int, e: int|
            0 <= i < j < m.handed_out_upto(n).len() && #[trigger] m.due_at(
                m.handed_out_upto(n)[i],
                d,
            ) && #[trigger] m.due_at(m.handed_out_upto(n)[j], e) ==> d <= e,
    decreases n,
{
    if n > 0 {
        let before = m.handed_out_upto((n - 1) as nat);
        let here = m.handed_out(n);
        let ids = m.handed_out_upto(n);
        lemma_handed_out_order(m, (n - 1) as nat);
        lemma_handed_out_upto(m, (n - 1) as nat);
        assert forall|i: int, j: int, d: int, e: int|
            0 <= i < j < ids.len() && #[trigger] m.due_at(ids[i], d) && #[trigger] m.due_at(
                ids[j],
                e,
            ) implies d <= e by {
            if j < before.len() {
                assert(m.due_at(before[i], d) && m.due_at(before[j], e));
            } else {
                let late = ids[j];
                assert(late == here[j - before.len()]);
                assert(here.contains(late));
                crate::laws::law_fires_once(m, late, n);
                law_due_once(m, late);
                assert(e == m.now + n);
                law_due_once(m, ids[i]);
                if i < before.len() {
                    assert(before.contains(before[i]));
                } else {
                    assert(here.contains(here[i - before.len()]));
                    crate::laws::law_fires_once(m, ids[i], n);
                }
            }
        }
    }
}

/// A worker that is told to shut down, or that the channel has ended, leaves its idle phase
/// whatever its clock shows.  It fires every task that waits (returned here) or is pending and
/// that has no cancellation marker, the last one first, and then looks for commands that are
/// still in the channel.  When those are at an end, it does the same once more and stops.
pub proof fn law_shutdown<T>(m: Machine<T>, event: Event<T>, outcomes: Seq<bool>) -> (waiting: Seq<
    T,
>)
    requires
        m.worker.sound(),
        m.worker.phase == Phase::Idle && (event is Exhausted || event == Event::Command(
            Cmd::<T>::Shutdown,
        )) || m.worker.phase == Phase::Collecting && event is Exhausted,
    ensures
        ({
            let idle = m.worker.phase == Phase::Idle;
            let start = m.stepped(event);
            let end = answered(start, outcomes);
            let pool = m.worker.pending + waiting;
            &&& idle ==> start.0.worker.phase == Phase::Closing || start.0.worker.phase
                == Phase::Collecting
            &&& !idle ==> start.0.worker.phase == Phase::Flushing || start.0.worker.phase
                == Phase::Stopped
            &&& start.1 is Fire || pool.len() == 0 || uncancelled(pool, m.shared.cancelled).len()
                == 0
            &&& waiting.no_duplicates()
            &&& forall|id: T| #[trigger] waiting.contains(id) <==> m.worker.wheel.waits(id)
            &&& forall|id: T| !#[trigger] start.0.worker.wheel.waits(id)
            &&& outcomes.len() >= pool.len() ==> {
                &&& fired_ids(start, outcomes) == uncancelled(pool.reverse(), m.shared.cancelled)
                &&& if idle {
                    end.1 is Poll && end.0.worker.phase == Phase::Collecting
                } else {
                    end.1 is Stop && end.0.worker.phase == Phase::Stopped
                }
                &&& end.0.worker.pending == Seq::<T>::empty()
                &&& end.0.worker.wheel.now == m.worker.wheel.now
                &&& end.0.worker.tick_len == m.worker.tick_len
                &&& end.0.worker.batch == m.worker.batch
                &&& forall|id: T| !#[trigger] end.0.worker.wheel.waits(id)
                &&& end.0.shared.cancelled == m.shared.cancelled
                &&& end.0.shared.sent == m.shared.sent
                &&& end.0.shared.taken == m.shared.taken
                &&& end.0.shared.received == if event is Exhausted {
                    m.shared.received
                } else {
                    m.shared.received.push(Cmd::Shutdown)
                }
                &&& end.0.shared.metrics.pending == 0
                &&& idle ==> end.0.shared.metrics.active == 0
            }
        }),
{
    law_swept_out(m.worker);
    let waiting = m.worker.wheel.all_ids();
    let pool = m.worker.pending + waiting;
    assert forall|id: T| #[trigger] waiting.contains(id) <==> m.worker.wheel.waits(id) by {
        law_drain_all(m.worker.wheel, id);
    }
    assert(waiting.no_duplicates()) by {
        if waiting.len() > 0 {
            law_drain_all(m.worker.wheel, waiting[0]);
        }
    }
    let mid = if m.worker.phase == Phase::Collecting {
        m.flushed()
    } else if event is Exhausted {
        m.closed()
    } else {
        m.obeyed(Cmd::Shutdown).closed()
    };
    assert(m.stepped(event) == mid.drained());
    assert(mid.worker.pending == pool && mid.worker.left == pool.len());
    lemma_drained(mid);
    lemma_answered_wheel(mid, outcomes);
    let start = mid.drained();
    if !(start.1 is Fire) {
        let none = Seq::new(pool.len(), |i: int| true);
        lemma_drain_run(mid, none);
        assert(fired_ids(start, none) =~= Seq::empty());
        lemma_uncancelled_none(pool, m.shared.cancelled);
    }
    if outcomes.len() >= pool.len() {
        lemma_drain_run(mid, outcomes);
        assert(pool.skip(0) =~= pool);
        assert(pool.take(0) =~= Seq::empty());
    }
    waiting
}

/// An order in which all are cancelled is no better than another.
proof fn lemma_uncancelled_none<T>(ids: Seq<T>, cancelled: Map<T, usize>)
    requires
        uncancelled(from_behind(ids, ids.len() as int), cancelled).len() == 0,
    ensures
        uncancelled(ids, cancelled).len() == 0,
{
    let keep = |id: T| !(cancelled.contains_key(id) && cancelled[id] > 0);
    let back = from_behind(ids, ids.len() as int);
    let kept = uncancelled(ids, cancelled);
    if kept.len() > 0 {
        let id = kept[0];
        assert(kept.contains(id));
        crate::laws::lemma_filter(ids, keep, id);
        let k = choose|k: int| 0 <= k < ids.len() && ids[k] == id;
        assert(back[ids.len() - 1 - k] == id);
        assert(back.contains(id));
        crate::laws::lemma_filter(back, keep, id);
        assert(back.filter(keep).contains(id));
    }
}

/// The end of a callback is counted, and the drain under way goes on with the ids that are
/// left for it.
pub proof fn law_fired<T>(m: Machine<T>, returned: bool, outcomes: Seq<bool>)
    requires
        m.worker.pending.no_duplicates(),
        m.worker.left <= m.worker.pending.len(),
        m.worker.left <= outcomes.len(),
        m.worker.phase == Phase::Draining || m.worker.phase == Phase::Closing || m.worker.phase
            == Phase::Flushing,
    ensures
        ({
            let start = m.stepped(Event::Fired(returned));
            let end = answered(start, outcomes);
            let before = m.shared.metrics;
            let after = start.0.shared.metrics;
            let left = m.worker.left as int;
            &&& returned && before.expirations < usize::MAX ==> after.expirations
                == before.expirations + 1
            &&& !returned && before.abnormal < usize::MAX ==> after.abnormal == before.abnormal
                + 1
            &&& returned ==> after.abnormal == before.abnormal
            &&& !returned ==> after.expirations == before.expirations
            &&& after.active == before.active
            &&& after.inserted == before.inserted
            &&& after.dropped == before.dropped
            &&& start.0.worker.wheel == m.worker.wheel
            &&& fired_ids(start, outcomes) == uncancelled(
                from_behind(m.worker.pending, left),
                m.shared.cancelled,
            )
            &&& end.0.worker.pending == m.worker.pending.take(m.worker.pending.len() - left)
            &&& end.0.worker.wheel == m.worker.wheel
            &&& end.0.shared.cancelled == m.shared.cancelled
            &&& m.worker.phase == Phase::Draining ==> end.1 is Wait && end.0.worker.phase
                == Phase::Idle
            &&& m.worker.phase == Phase::Closing ==> end.1 is Poll && end.0.worker.phase
                == Phase::Collecting
            &&& m.worker.phase == Phase::Flushing ==> end.1 is Stop && end.0.worker.phase
                == Phase::Stopped
        }),
{
    let mid = Machine { worker: m.worker, shared: m.shared.fired(returned) };
    lemma_drained(mid);
    lemma_drain_run(mid, outcomes);
}

/// The ids of `ids` other than `id`, in order.
pub open spec fn others<T>(ids: Seq<T>, id: T) -> Seq<T> {
    ids.filter(|other: T| other != id)
}

/// A command about a task drops its pending callback and whatever it waited for, takes back one
/// of its cancellation markers, and is noted; nothing changes for other tasks.  After an insert
/// or reset the task waits for as many ticks as there are whole ones in its timeout, one at
/// least; after a remove it does not wait.  The worker stays idle, or goes on collecting.
pub proof fn law_command<T>(m: Machine<T>, cmd: Cmd<T>, id: T)
    requires
        m.worker.sound(),
        m.worker.tick_len >= 1,
        m.worker.phase == Phase::Idle || m.worker.phase == Phase::Collecting,
        match cmd {
            Cmd::Insert(subject, _) => subject == id,
            Cmd::Reset(subject, _) => subject == id,
            Cmd::Remove(subject) => subject == id,
            Cmd::Shutdown => false,
        },
        marks(m.shared.cancelled, id) < usize::MAX,
    ensures
        ({
            let (after, action) = m.stepped(Event::Command(cmd));
            let wheel = m.worker.wheel;
            let t = m.worker.tick_len;
            &&& m.worker.phase == Phase::Idle ==> action is Wait
            &&& m.worker.phase == Phase::Collecting ==> action is Poll
            &&& after.worker == (WorkerModel {
                wheel: after.worker.wheel,
                pending: others(m.worker.pending, id),
                ..m.worker
            })
            &&& after.worker.wheel.now == wheel.now
            &&& after.worker.wheel.waits(id) <==> !(cmd is Remove)
            &&& forall|other: T, due: int|
                other != id ==> (#[trigger] after.worker.wheel.due_at(other, due) <==> wheel.due_at(
                    other,
                    due,
                ))
            &&& forall|due: int| #[trigger]
                after.worker.wheel.due_at(id, due) ==> match cmd {
                    Cmd::Insert(_, timeout) | Cmd::Reset(_, timeout) => {
                        let ms = duration_millis(timeout) as int;
                        let d = due - wheel.now;
                        &&& ms < t ==> d == 1
                        &&& t <= ms < (u64::MAX + 1) * t ==> d * t <= ms < (d + 1) * t
                        &&& ms >= (u64::MAX + 1) * t ==> d == u64::MAX
                    },
                    _ => false,
                }
            &&& after.shared == (SharedModel {
                cancelled: after.shared.cancelled,
                received: m.shared.received.push(cmd),
                ..m.shared
            })
            &&& after.shared.cancelled.remove(id) == m.shared.cancelled.remove(id)
            &&& after.shared.cancelled.contains_key(id) <==> m.shared.cancelled.contains_key(id)
                && m.shared.cancelled[id] >= 2
            &&& after.shared.cancelled.contains_key(id) ==> after.shared.cancelled[id]
                == m.shared.cancelled[id] - 1
        }),
{
    law_obeyed(m.worker, cmd);
    law_marks(m.shared.cancelled, id);
    match cmd {
        Cmd::Insert(_, timeout) | Cmd::Reset(_, timeout) => {
            law_delay(duration_millis(timeout) as int, m.worker.tick_len);
        },
        _ => {},
    }
    let keep = |other: T| other != id;
    assert(m.worker.purged(id).pending == others(m.worker.pending, id)) by {
        assert(m.worker.pending.filter(|x: T| x != id) == m.worker.pending.filter(keep));
    }
}

/// A shutdown that comes while the worker collects changes nothing but that it is noted.
pub proof fn law_shutdown_again<T>(m: Machine<T>)
    requires
        m.worker.phase == Phase::Collecting,
    ensures
        ({
            let (after, action) = m.stepped(Event::Command(Cmd::Shutdown));
            &&& action is Poll
            &&& after.worker == m.worker
            &&& after.shared == (SharedModel {
                received: m.shared.received.push(Cmd::Shutdown),
                ..m.shared
            })
        }),
{
}

/// A new worker is idle, at tick zero, with nothing pending.
pub proof fn law_new_worker<T>(tick_len: int, batch: nat)
    ensures
        ({
            let worker = WorkerModel::<T>::fresh(tick_len, batch);
            &&& worker.phase == Phase::Idle
            &&& worker.wheel.now == 0
            &&& worker.tick_len == tick_len
            &&& worker.batch == batch
            &&& worker.pending == Seq::<T>::empty()
            &&& worker.left == 0
            &&& forall|l: int, s: int|
                0 <= l < 3 && 0 <= s < 64 ==> (#[trigger] worker.wheel.lanes[l][s]).len() == 0
        }),
{
}

/// What the worker is told is the oldest command that is in the channel, if there is one.
pub proof fn law_event_of<T>(cmd: Cmd<T>)
    ensures
        event_of(Some(cmd)) == Event::Command(cmd),
        event_of(None::<Cmd<T>>) == Event::<T>::Exhausted,
{
}

/// What is shared is in order: no id is listed without a marker, what was taken from the
/// channel is what it accepted first, and it holds no more than its capacity.
pub proof fn law_shared<T>(shared: SharedModel<T>, id: T, k: int)
    requires
        shared.wf(),
    ensures
        shared.cancelled.contains_key(id) ==> shared.cancelled[id] >= 1,
        shared.taken.len() <= shared.sent.len() <= shared.taken.len() + shared.line.capacity,
        0 <= k < shared.taken.len() ==> shared.taken[k] == shared.sent[k],
{
}

/// Nothing is counted, marked or sent at the start.
pub proof fn law_new_shared<T>(line: Line)
    ensures
        ({
            let shared = SharedModel::<T>::fresh(line);
            &&& shared.line == line
            &&& shared.cancelled == Map::<T, usize>::empty()
            &&& shared.sent.len() == 0
            &&& shared.returned.len() == 0
            &&& shared.taken.len() == 0
            &&& shared.received.len() == 0
            &&& shared.metrics.active == 0
            &&& shared.metrics.inserted == 0
            &&& shared.metrics.dropped == 0
            &&& shared.metrics.expirations == 0
            &&& shared.metrics.abnormal == 0
            &&& shared.metrics.pending == 0
        }),
{
}

/// What a call of a handle does to what is shared.  A command that the channel takes is the one
/// that was asked for, behind the others, and its task has one more cancellation marker; a
/// command that it gives back leaves the commands on their way and the markers as they were.
pub proof fn law_called<T>(shared: SharedModel<T>, cmd: Cmd<T>, id: T)
    requires
        marks(shared.cancelled, id) < usize::MAX,
        match cmd {
            Cmd::Insert(subject, _) => subject == id,
            Cmd::Reset(subject, _) => subject == id,
            Cmd::Remove(subject) => subject == id,
            Cmd::Shutdown => true,
        },
    ensures
        ({
            let taken = shared.called(cmd, true);
            let back = shared.called(cmd, false);
            let booking = cmd is Insert || cmd is Reset;
            &&& taken == (SharedModel {
                sent: shared.sent.push(cmd),
                cancelled: taken.cancelled,
                metrics: taken.metrics,
                ..shared
            })
            &&& back == (SharedModel {
                returned: shared.returned.push(cmd),
                metrics: back.metrics,
                ..shared
            })
            &&& cmd is Shutdown ==> taken.cancelled == shared.cancelled
            &&& !(cmd is Shutdown) ==> {
                &&& taken.cancelled.remove(id) == shared.cancelled.remove(id)
                &&& taken.cancelled.contains_key(id)
                &&& taken.cancelled[id] == if shared.cancelled.contains_key(id) {
                    shared.cancelled[id] + 1
                } else {
                    1
                }
            }
            &&& taken.metrics.active == shared.metrics.active
            &&& taken.metrics.dropped == shared.metrics.dropped
            &&& taken.metrics.expirations == shared.metrics.expirations
            &&& taken.metrics.abnormal == shared.metrics.abnormal
            &&& taken.metrics.pending == shared.metrics.pending
            &&& booking && shared.metrics.inserted < usize::MAX ==> taken.metrics.inserted
                == shared.metrics.inserted + 1
            &&& booking && shared.metrics.inserted == usize::MAX ==> taken.metrics.inserted == 0
            &&& !booking ==> taken.metrics.inserted == shared.metrics.inserted
            &&& back.metrics.active == shared.metrics.active
            &&& back.metrics.inserted == shared.metrics.inserted
            &&& back.metrics.expirations == shared.metrics.expirations
            &&& back.metrics.abnormal == shared.metrics.abnormal
            &&& back.metrics.pending == shared.metrics.pending
            &&& cmd is Shutdown ==> back.metrics.dropped == shared.metrics.dropped
            &&& !(cmd is Shutdown) && shared.metrics.dropped < usize::MAX ==> back.metrics.dropped
                == shared.metrics.dropped + 1
            &&& !(cmd is Shutdown) && shared.metrics.dropped == usize::MAX ==> back.metrics.dropped
                == 0
        }),
{
    law_marks(shared.cancelled, id);
    assert(bumped(shared.metrics.inserted) <= usize::MAX);
}

/// Taking a command from the channel moves the first one that has not been taken, and changes
/// nothing else.
pub proof fn law_taken<T>(shared: SharedModel<T>, rest: Seq<Cmd<T>>)
    requires
        shared.sent == shared.taken + rest,
    ensures
        rest.len() == 0 ==> shared.oldest() is None && shared.relieved() == shared,
        rest.len() > 0 ==> shared.oldest() == Some(rest[0]) && shared.relieved() == (SharedModel {
            taken: shared.taken.push(rest[0]),
            ..shared
        }),
        shared.has_place() <==> rest.len() < shared.line.capacity,
{
}

} // verus!
