//! What holds of worker, handles and channel together.

use std::time::Duration;

use vstd::prelude::*;

use crate::cancel::{law_unmark_undoes_mark, marks, trimmed, unmarked};
use crate::channel::Line;
use crate::command::{is_booking, lemma_counts_push, lemma_mentions_push, mentions, Cmd};
use crate::laws::{
    law_advance, law_drain_all, law_due_once, law_fires_once, law_remove, law_schedule,
    lemma_filter,
};
use crate::machine::{catch_up, target_tick, Action, Event, Machine, Phase, WorkerModel};
use crate::model::WheelModel;
use crate::shared::SharedModel;
use crate::time::duration_millis;

verus! {

impl<T> SharedModel<T> {
    /// Every id has as many cancellation markers as commands about it are on their way.
    pub open spec fn balanced(self) -> bool {
        &&& trimmed(self.cancelled)
        &&& forall|id: T|
            #![trigger marks(self.cancelled, id)]
            marks(self.cancelled, id) + mentions(self.received, id) == mentions(self.sent, id)
    }

    /// The channel keeps its bounds, the worker has carried out the oldest of the commands that
    /// were taken from it, and the markers are balanced.
    pub open spec fn orderly(self) -> bool {
        &&& self.in_bounds()
        &&& self.received.is_prefix_of(self.taken)
        &&& self.balanced()
    }

    /// The worker is up to date with what was taken from the channel: `event` is the command
    /// that was taken last, and the worker has carried out the others, or `event` is no
    /// command, and the worker has carried out all.
    pub open spec fn delivers(self, event: Event<T>) -> bool {
        &&& self.orderly()
        &&& match event {
            Event::Command(cmd) => self.taken == self.received.push(cmd),
            _ => self.taken == self.received,
        }
    }

    /// The worker has carried out what was taken from the channel, and all is in order.
    pub open spec fn consistent(self) -> bool {
        self.orderly() && self.taken == self.received
    }

    /// A command about `id` is on its way to the worker.
    pub open spec fn on_its_way(self, id: T) -> bool {
        exists|k: int|
            self.received.len() <= k < self.sent.len() && (#[trigger] self.sent[k]).concerns(id)
    }
}

impl<T> WorkerModel<T> {
    /// The worker knows nothing of `id`: no task of it waits, and no callback is pending.
    pub open spec fn forgot(self, id: T) -> bool {
        !self.wheel.waits(id) && !self.pending.contains(id)
    }

    /// Every id waits in the wheel or for its callback or for neither, and at most once.
    pub open spec fn sound(self) -> bool {
        &&& self.wheel.wf()
        &&& self.pending.no_duplicates()
        &&& forall|id: T| #[trigger] self.pending.contains(id) ==> !self.wheel.waits(id)
    }
}

/// What is handed out over several ticks.
pub(crate) proof fn lemma_handed_out_upto<T>(m: WheelModel<T>, n: nat)
    requires
        m.wf(),
    ensures
        m.handed_out_upto(n).no_duplicates(),
        m.after(n).wf(),
        m.after(n).now == m.now + n,
        forall|id: T| #[trigger]
            m.handed_out_upto(n).contains(id) <==> exists|due: int|
                m.due_at(id, due) && due <= m.now + n,
        forall|id: T| #[trigger]
            m.after(n).waits(id) <==> m.waits(id) && !m.handed_out_upto(n).contains(id),
    decreases n,
{
    let ids = m.handed_out_upto(n);
    if n == 0 {
        assert forall|id: T| #[trigger] ids.contains(id) <==> exists|due: int|
            m.due_at(id, due) && due <= m.now + n by {
            law_due_once(m, id);
        }
    } else {
        let before = m.handed_out_upto((n - 1) as nat);
        let here = m.handed_out(n);
        lemma_handed_out_upto(m, (n - 1) as nat);
        law_advance(m.after((n - 1) as nat));
        assert(here.no_duplicates());
        assert forall|id: T| #[trigger] here.contains(id) <==> m.due_at(id, m.now + n) by {
            law_fires_once(m, id, n);
        }
        assert forall|id: T| #[trigger] ids.contains(id) <==> exists|due: int|
            m.due_at(id, due) && due <= m.now + n by {
            vstd::seq_lib::lemma_seq_concat_contains_all_elements(before, here, id);
            if before.contains(id) {
                let due = choose|due: int| m.due_at(id, due) && due <= m.now + n - 1;
                assert(m.due_at(id, due) && due <= m.now + n);
            }
            if here.contains(id) {
                assert(m.due_at(id, m.now + n));
            }
            if exists|due: int| m.due_at(id, due) && due <= m.now + n {
                let due = choose|due: int| m.due_at(id, due) && due <= m.now + n;
                if due == m.now + n {
                    assert(here.contains(id));
                } else {
                    assert(m.due_at(id, due) && due <= m.now + n - 1);
                    assert(before.contains(id));
                }
            }
        }
        assert forall|x: int, y: int| 0 <= x < before.len() && 0 <= y
            < here.len() implies before[x] != here[y] by {
            assert(before.contains(before[x]) && here.contains(here[y]));
            law_due_once(m, here[y]);
            let due = choose|due: int| m.due_at(before[x], due) && due <= m.now + n - 1;
            assert(m.due_at(here[y], m.now + n));
        }
        vstd::seq_lib::lemma_no_dup_in_concat(before, here);
    }
    assert forall|id: T| #[trigger] m.after(n).waits(id) <==> m.waits(id) && !ids.contains(id) by {
        law_due_once(m, id);
        if n > 0 {
            law_fires_once(m, id, n);
        }
        if m.waits(id) {
            let due = choose|due: int| m.due_at(id, due);
            if !ids.contains(id) {
                assert(due > m.now + n);
            }
        }
    }
}

/// What a drain does, whatever it finds.
pub(crate) proof fn lemma_drained<T>(m: Machine<T>)
    requires
        m.worker.pending.no_duplicates(),
    ensures
        ({
            let (after, action) = m.drained();
            &&& after.worker.wheel == m.worker.wheel
            &&& after.worker.batch == m.worker.batch
            &&& after.worker.tick_len == m.worker.tick_len
            &&& after.worker.pending.no_duplicates()
            &&& after.shared.cancelled == m.shared.cancelled
            &&& after.shared.sent == m.shared.sent
            &&& after.shared.received == m.shared.received
            &&& after.shared.returned == m.shared.returned
            &&& after.shared.taken == m.shared.taken
            &&& after.shared.line == m.shared.line
            &&& after.shared.metrics.inserted == m.shared.metrics.inserted
            &&& after.shared.metrics.dropped == m.shared.metrics.dropped
            &&& forall|id: T| #[trigger]
                after.worker.pending.contains(id) ==> m.worker.pending.contains(id)
            &&& forall|id: T| #[trigger]
                m.worker.pending.contains(id) ==> after.worker.pending.contains(id) || action
                    == Action::Fire(id) || marks(m.shared.cancelled, id) > 0
            &&& match action {
                Action::Fire(id) => {
                    &&& m.worker.pending.contains(id)
                    &&& !after.worker.pending.contains(id)
                    &&& marks(m.shared.cancelled, id) == 0
                    &&& after.worker.phase == m.worker.phase
                    &&& after.worker.left < m.worker.left
                    &&& after.shared == m.shared
                },
                _ => {
                    &&& action == m.rest_action()
                    &&& after.worker == (WorkerModel {
                        pending: after.worker.pending,
                        ..m.worker.rested()
                    })
                    &&& after.shared == m.shared.awaiting(after.worker.pending.len())
                },
            }
            &&& m.worker.left <= m.worker.pending.len() ==> after.worker.left
                <= after.worker.pending.len()
            &&& m.worker.left == m.worker.pending.len() ==> match action {
                Action::Fire(_) => after.worker.left == after.worker.pending.len(),
                _ => after.worker.pending.len() == 0,
            }
        }),
    decreases m.worker.left,
{
    let pending = m.worker.pending;
    if m.worker.left > 0 && pending.len() > 0 {
        let id = pending.last();
        let rest = Machine { worker: m.worker.popped(), shared: m.shared };
        let less = pending.drop_last();
        assert(pending =~= less.push(id));
        assert forall|x: T| #[trigger] pending.contains(x) <==> less.contains(x) || x == id by {
            vstd::seq_lib::lemma_seq_contains_after_push(less, id, x);
            if x == id {
                assert(pending[pending.len() - 1] == x);
            }
        }
        assert(!less.contains(id)) by {
            if less.contains(id) {
                let k = choose|k: int| 0 <= k < less.len() && less[k] == id;
                assert(pending[k] == pending[pending.len() - 1]);
            }
        }
        if marks(m.shared.cancelled, id) > 0 {
            lemma_drained(rest);
        }
    }
}

/// Dropping ids makes none come twice.
pub(crate) proof fn lemma_filter_no_duplicates<T>(s: Seq<T>, keep: spec_fn(T) -> bool)
    requires
        s.no_duplicates(),
    ensures
        s.filter(keep).no_duplicates(),
    decreases s.len(),
{
    reveal(Seq::filter);
    if s.len() > 0 {
        let rest = s.drop_last();
        lemma_filter_no_duplicates(rest, keep);
        assert(!rest.filter(keep).contains(s.last())) by {
            lemma_filter(rest, keep, s.last());
            if rest.contains(s.last()) {
                let k = choose|k: int| 0 <= k < rest.len() && rest[k] == s.last();
                assert(s[k] == s[s.len() - 1]);
            }
        }
        let kept = rest.filter(keep);
        assert forall|x: int, y: int| 0 <= x < kept.push(s.last()).len() && 0 <= y < kept.push(
            s.last(),
        ).len() && x != y implies kept.push(s.last())[x] != kept.push(s.last())[y] by {
            if x < kept.len() {
                assert(kept.contains(kept[x]));
            }
            if y < kept.len() {
                assert(kept.contains(kept[y]));
            }
        }
    }
}

/// `cmd` schedules a task of `id`.
pub open spec fn schedules<T>(cmd: Cmd<T>, id: T) -> bool {
    cmd.concerns(id) && !(cmd is Remove)
}

/// Once a command is carried out, the callback that was pending for its task is dropped, and
/// the task waits exactly if the command schedules it.  Nothing changes for other tasks.
pub proof fn law_obeyed<T>(worker: WorkerModel<T>, cmd: Cmd<T>)
    requires
        worker.sound(),
    ensures
        worker.obeyed(cmd).sound(),
        forall|id: T| #[trigger]
            worker.obeyed(cmd).pending.contains(id) <==> worker.pending.contains(id)
                && !cmd.concerns(id),
        forall|id: T| #[trigger]
            worker.obeyed(cmd).wheel.waits(id) <==> if cmd.concerns(id) {
                schedules(cmd, id)
            } else {
                worker.wheel.waits(id)
            },
        forall|id: T, due: int| #[trigger]
            worker.obeyed(cmd).wheel.due_at(id, due) <==> if cmd.concerns(id) {
                match cmd {
                    Cmd::Insert(_, timeout) | Cmd::Reset(_, timeout) => due == worker.wheel.now
                        + worker.delay(timeout),
                    _ => false,
                }
            } else {
                worker.wheel.due_at(id, due)
            },
{
    let after = worker.obeyed(cmd);
    match cmd {
        Cmd::Insert(subject, timeout) | Cmd::Reset(subject, timeout) => {
            law_schedule(worker.wheel, subject, worker.delay(timeout));
            let keep = |x: T| x != subject;
            lemma_filter_no_duplicates(worker.pending, keep);
            assert forall|id: T| #[trigger] after.pending.contains(id) <==> worker.pending.contains(
                id,
            ) && !cmd.concerns(id) by {
                lemma_filter(worker.pending, keep, id);
            }
        },
        Cmd::Remove(subject) => {
            law_remove(worker.wheel, subject);
            let keep = |x: T| x != subject;
            lemma_filter_no_duplicates(worker.pending, keep);
            assert forall|id: T| #[trigger] after.pending.contains(id) <==> worker.pending.contains(
                id,
            ) && !cmd.concerns(id) by {
                lemma_filter(worker.pending, keep, id);
            }
        },
        Cmd::Shutdown => {},
    }
    assert forall|id: T| #[trigger] after.wheel.waits(id) <==> if cmd.concerns(id) {
        schedules(cmd, id)
    } else {
        worker.wheel.waits(id)
    } by {
        law_due_once(worker.wheel, id);
        law_due_once(after.wheel, id);
        if !cmd.concerns(id) {
            if worker.wheel.waits(id) {
                let due = choose|due: int| worker.wheel.due_at(id, due);
                assert(after.wheel.due_at(id, due));
            }
            if after.wheel.waits(id) {
                let due = choose|due: int| after.wheel.due_at(id, due);
                assert(worker.wheel.due_at(id, due));
            }
        }
    }
}

/// A catch-up moves exactly the tasks that are due by the new tick from the wheel to the
/// pending callbacks.
pub proof fn law_tick_expires<T>(worker: WorkerModel<T>, n: nat)
    requires
        worker.sound(),
    ensures
        worker.advanced(n).sound(),
        worker.advanced(n).wheel.now == worker.wheel.now + n,
        forall|id: T| #[trigger]
            worker.advanced(n).pending.contains(id) <==> worker.pending.contains(id)
                || exists|due: int|
                worker.wheel.due_at(id, due) && due <= worker.wheel.now + n,
        forall|id: T| #[trigger]
            worker.advanced(n).wheel.waits(id) <==> exists|due: int|
                worker.wheel.due_at(id, due) && due > worker.wheel.now + n,
{
    let after = worker.advanced(n);
    let ids = worker.wheel.handed_out_upto(n);
    lemma_handed_out_upto(worker.wheel, n);
    assert forall|id: T| #[trigger] after.pending.contains(id) <==> worker.pending.contains(id)
        || ids.contains(id) by {
        vstd::seq_lib::lemma_seq_concat_contains_all_elements(worker.pending, ids, id);
    }
    assert forall|id: T| #[trigger] ids.contains(id) implies worker.wheel.waits(id) by {
        law_due_once(worker.wheel, id);
    }
    assert forall|x: int, y: int| 0 <= x < worker.pending.len() && 0 <= y
        < ids.len() implies worker.pending[x] != ids[y] by {
        assert(worker.pending.contains(worker.pending[x]) && ids.contains(ids[y]));
    }
    vstd::seq_lib::lemma_no_dup_in_concat(worker.pending, ids);
    assert forall|id: T| #[trigger] after.wheel.waits(id) <==> exists|due: int|
        worker.wheel.due_at(id, due) && due > worker.wheel.now + n by {
        law_due_once(worker.wheel, id);
    }
}

/// A task that is inserted or reset and then left alone has fallen due, and waits for its
/// callback, exactly once as many ticks have passed as its timeout asks for.
pub proof fn law_scheduled_falls_due<T>(worker: WorkerModel<T>, cmd: Cmd<T>, id: T, n: nat)
    requires
        worker.sound(),
        schedules(cmd, id),
    ensures
        worker.obeyed(cmd).advanced(n).pending.contains(id) <==> match cmd {
            Cmd::Insert(_, timeout) | Cmd::Reset(_, timeout) => n >= worker.delay(timeout),
            _ => false,
        },
{
    law_obeyed(worker, cmd);
    let mid = worker.obeyed(cmd);
    law_tick_expires(mid, n);
    assert(mid.wheel.now == worker.wheel.now);
    match cmd {
        Cmd::Insert(_, timeout) | Cmd::Reset(_, timeout) => {
            let due = worker.wheel.now + worker.delay(timeout);
            assert(mid.wheel.due_at(id, due));
        },
        _ => {},
    }
}

/// A shutdown moves every task from the wheel to the pending callbacks.
pub proof fn law_swept_out<T>(worker: WorkerModel<T>)
    requires
        worker.sound(),
    ensures
        worker.swept_out().sound(),
        forall|id: T| !#[trigger] worker.swept_out().wheel.waits(id),
        forall|id: T| #[trigger]
            worker.swept_out().pending.contains(id) <==> worker.pending.contains(id)
                || worker.wheel.waits(id),
{
    let after = worker.swept_out();
    let ids = worker.wheel.all_ids();
    assert forall|id: T| #[trigger] after.pending.contains(id) <==> worker.pending.contains(id)
        || worker.wheel.waits(id) by {
        law_drain_all(worker.wheel, id);
        vstd::seq_lib::lemma_seq_concat_contains_all_elements(worker.pending, ids, id);
    }
    assert forall|id: T| !#[trigger] after.wheel.waits(id) by {
        law_drain_all(worker.wheel, id);
    }
    assert forall|x: int, y: int| 0 <= x < worker.pending.len() && 0 <= y
        < ids.len() implies worker.pending[x] != ids[y] by {
        law_drain_all(worker.wheel, ids[y]);
        assert(worker.pending.contains(worker.pending[x]) && ids.contains(ids[y]));
    }
    if ids.len() > 0 {
        law_drain_all(worker.wheel, ids[0]);
    }
    vstd::seq_lib::lemma_no_dup_in_concat(worker.pending, ids);
    assert(after.wheel.wf());
}

/// `event` is a command about `id`.
pub open spec fn is_about<T>(event: Event<T>, id: T) -> bool {
    event matches Event::Command(cmd) && cmd.concerns(id)
}

/// `event` is a command that schedules a task of `id`.
pub open spec fn is_schedule<T>(event: Event<T>, id: T) -> bool {
    event matches Event::Command(cmd) && schedules(cmd, id)
}

/// What a drain does to a worker that is in order.
proof fn lemma_drained_sound<T>(m: Machine<T>)
    requires
        m.worker.sound(),
    ensures
        ({
            let (after, action) = m.drained();
            &&& after.worker.sound()
            &&& action matches Action::Fire(id) ==> marks(after.shared.cancelled, id) == 0
                && after.worker.forgot(id) && !m.worker.forgot(id)
            &&& forall|id: T| #[trigger] m.worker.forgot(id) ==> after.worker.forgot(id)
            &&& forall|id: T| #[trigger]
                after.worker.forgot(id) ==> m.worker.forgot(id) || action == Action::Fire(id)
                    || marks(after.shared.cancelled, id) > 0
        }),
{
    lemma_drained(m);
}

/// A step keeps the worker in order.  It fires only a task that the worker knew and that has
/// no cancellation marker, and the worker then forgets it.  A task that the worker does not
/// know stays unknown to it until a command schedules it.  A task that the worker knows
/// stays known, unless it fires, has a cancellation marker, or a command is about it.
pub proof fn law_step<T>(m: Machine<T>, event: Event<T>)
    requires
        m.worker.sound(),
        m.worker.accepts(event),
    ensures
        ({
            let (after, action) = m.stepped(event);
            &&& after.worker.sound()
            &&& action matches Action::Fire(id) ==> marks(after.shared.cancelled, id) == 0
                && after.worker.forgot(id) && !m.worker.forgot(id)
            &&& forall|id: T| #[trigger]
                m.worker.forgot(id) && !is_schedule(event, id) ==> after.worker.forgot(id)
            &&& forall|id: T| #[trigger]
                after.worker.forgot(id) && !is_about(event, id) ==> m.worker.forgot(id) || action
                    == Action::Fire(id) || marks(after.shared.cancelled, id) > 0
        }),
{
    match event {
        Event::Command(cmd) => {
            law_obeyed(m.worker, cmd);
            let mid = m.obeyed(cmd);
            assert forall|id: T|
                #![trigger mid.worker.forgot(id)]
                #![trigger m.worker.forgot(id)]
                mid.worker.forgot(id) == if cmd.concerns(id) {
                    !schedules(cmd, id)
                } else {
                    m.worker.forgot(id)
                } by {
                assert(mid.worker == m.worker.obeyed(cmd));
            }
            if m.worker.phase != Phase::Collecting && cmd is Shutdown {
                law_swept_out(mid.worker);
                lemma_drained_sound(mid.closed());
                assert forall|id: T|
                    #![trigger mid.closed().worker.forgot(id)]
                    #![trigger m.worker.forgot(id)]
                    mid.closed().worker.forgot(id) == m.worker.forgot(id) by {
                    assert(mid.closed().worker.pending == mid.worker.swept_out().pending);
                }
            }
        },
        Event::Exhausted => {
            law_swept_out(m.worker);
            let mid = if m.worker.phase == Phase::Collecting {
                m.flushed()
            } else {
                m.closed()
            };
            lemma_drained_sound(mid);
            assert forall|id: T|
                #![trigger mid.worker.forgot(id)]
                #![trigger m.worker.forgot(id)]
                mid.worker.forgot(id) == m.worker.forgot(id) by {
                assert(mid.worker.pending == m.worker.swept_out().pending);
            }
        },
        Event::Ticked(elapsed) => {
            let target = target_tick(duration_millis(elapsed) as int, m.worker.tick_len);
            let n = catch_up(m.worker.wheel.now, target) as nat;
            law_tick_expires(m.worker, n);
            let mid = m.ticked(elapsed);
            lemma_drained_sound(mid);
            assert forall|id: T|
                #![trigger mid.worker.forgot(id)]
                #![trigger m.worker.forgot(id)]
                mid.worker.forgot(id) == m.worker.forgot(id) by {
                assert(mid.worker.pending == m.worker.advanced(n).pending);
                law_due_once(m.worker.wheel, id);
            }
        },
        Event::Fired(returned) => {
            lemma_drained_sound(
                Machine { worker: m.worker, shared: m.shared.fired(returned) },
            );
        },
    }
}

/// What a step does to markers and logs.
pub(crate) proof fn lemma_step_shared<T>(m: Machine<T>, event: Event<T>)
    requires
        m.worker.sound(),
        m.worker.accepts(event),
    ensures
        ({
            let after = m.stepped(event).0.shared;
            &&& after.line == m.shared.line
            &&& after.sent == m.shared.sent
            &&& after.returned == m.shared.returned
            &&& after.taken == m.shared.taken
            &&& after.metrics.inserted == m.shared.metrics.inserted
            &&& after.metrics.dropped == m.shared.metrics.dropped
            &&& match event {
                Event::Command(cmd) => {
                    &&& after.cancelled == m.shared.obeyed(cmd).cancelled
                    &&& after.received == m.shared.received.push(cmd)
                },
                _ => {
                    &&& after.cancelled == m.shared.cancelled
                    &&& after.received == m.shared.received
                },
            }
        }),
{
    match event {
        Event::Command(cmd) => {
            law_obeyed(m.worker, cmd);
            let mid = m.obeyed(cmd);
            if m.worker.phase != Phase::Collecting && cmd is Shutdown {
                law_swept_out(mid.worker);
                lemma_drained(mid.closed());
            }
        },
        Event::Exhausted => {
            law_swept_out(m.worker);
            if m.worker.phase == Phase::Collecting {
                lemma_drained(m.flushed());
            } else {
                lemma_drained(m.closed());
            }
        },
        Event::Ticked(elapsed) => {
            let target = target_tick(duration_millis(elapsed) as int, m.worker.tick_len);
            law_tick_expires(m.worker, catch_up(m.worker.wheel.now, target) as nat);
            lemma_drained(m.ticked(elapsed));
        },
        Event::Fired(returned) => {
            lemma_drained(Machine { worker: m.worker, shared: m.shared.fired(returned) });
        },
    }
}

/// A longer log mentions an id at least as often, and more often if what it adds does.
proof fn lemma_mentions_prefix<T>(log: Seq<Cmd<T>>, n: int, id: T)
    requires
        0 <= n <= log.len(),
    ensures
        mentions(log.take(n), id) <= mentions(log, id),
        (exists|k: int| n <= k < log.len() && (#[trigger] log[k]).concerns(id)) ==> mentions(
            log.take(n),
            id,
        ) < mentions(log, id),
        mentions(log, id) - mentions(log.take(n), id) <= log.len() - n,
    decreases log.len() - n,
{
    if n == log.len() {
        assert(log.take(n) =~= log);
    } else {
        assert(log.take(n + 1) =~= log.take(n).push(log[n]));
        lemma_mentions_push(log.take(n), log[n], id);
        lemma_mentions_prefix(log, n + 1, id);
        if exists|k: int| n <= k < log.len() && (#[trigger] log[k]).concerns(id) {
            let k = choose|k: int| n <= k < log.len() && (#[trigger] log[k]).concerns(id);
            if k > n {
                assert(n + 1 <= k < log.len() && log[k].concerns(id));
            }
        }
    }
}

/// Nothing is on its way at the start.
pub proof fn law_fresh_consistent<T>(line: Line)
    ensures
        SharedModel::<T>::fresh(line).consistent(),
{
}

/// A new worker is in order and knows of no task.
pub proof fn law_fresh_worker<T>(tick_len: int, batch: nat)
    ensures
        WorkerModel::<T>::fresh(tick_len, batch).sound(),
        WorkerModel::<T>::fresh(tick_len, batch).winds_up(),
        forall|id: T| #[trigger] WorkerModel::<T>::fresh(tick_len, batch).forgot(id),
{
}

/// A call keeps all in order: a command that is accepted is on its way, and one that is
/// refused leaves no marker behind.
pub proof fn law_send_consistent<T>(shared: SharedModel<T>, cmd: Cmd<T>, id: T)
    requires
        shared.orderly(),
        marks(shared.cancelled, id) < usize::MAX,
        cmd.concerns(id),
    ensures
        shared.has_place() ==> shared.called(cmd, true).orderly() && shared.called(
            cmd,
            true,
        ).on_its_way(id),
        shared.called(cmd, false).orderly(),
        forall|accepted: bool| #[trigger]
            shared.called(cmd, accepted).taken == shared.taken && shared.called(
                cmd,
                accepted,
            ).received == shared.received,
{
    law_unmark_undoes_mark(shared.cancelled, id);
    assert(shared.taken.is_prefix_of(shared.sent.push(cmd)));
    let after = shared.announced(id).logged(cmd);
    assert forall|other: T| #![trigger marks(after.cancelled, other)] marks(after.cancelled, other)
        + mentions(after.received, other) == mentions(after.sent, other) by {
        lemma_mentions_push(shared.sent, cmd, other);
        assert(marks(shared.cancelled, other) + mentions(shared.received, other) == mentions(
            shared.sent,
            other,
        ));
    }
    assert(after.sent[shared.sent.len() as int].concerns(id));
    assert(after.counted().sent[shared.sent.len() as int].concerns(id));
}

/// A shutdown call keeps all in order.
pub proof fn law_shutdown_consistent<T>(shared: SharedModel<T>)
    requires
        shared.orderly(),
    ensures
        shared.has_place() ==> shared.called(Cmd::Shutdown, true).orderly(),
        shared.called(Cmd::Shutdown, false).orderly(),
        forall|accepted: bool| #[trigger]
            shared.called(Cmd::Shutdown, accepted).taken == shared.taken && shared.called(
                Cmd::Shutdown,
                accepted,
            ).received == shared.received,
{
    assert(shared.taken.is_prefix_of(shared.sent.push(Cmd::Shutdown)));
    let after = shared.logged(Cmd::Shutdown);
    assert forall|id: T| #![trigger marks(after.cancelled, id)] marks(after.cancelled, id)
        + mentions(after.received, id) == mentions(after.sent, id) by {
        lemma_mentions_push(shared.sent, Cmd::Shutdown, id);
    }
}

/// A command on its way keeps its task from firing.
proof fn lemma_on_its_way_marks<T>(shared: SharedModel<T>, id: T)
    requires
        shared.orderly(),
        shared.on_its_way(id),
    ensures
        marks(shared.cancelled, id) > 0,
{
    let n = shared.received.len() as int;
    assert(shared.sent.take(n) =~= shared.received);
    lemma_mentions_prefix(shared.sent, n, id);
    let k = choose|k: int|
        shared.received.len() <= k < shared.sent.len() && (#[trigger] shared.sent[k]).concerns(id);
    assert(n <= k < shared.sent.len() && shared.sent[k].concerns(id));
}

/// A command that is taken from the channel is the oldest on its way, and it is what the
/// worker has to carry out next.
pub proof fn law_take_delivers<T>(shared: SharedModel<T>)
    requires
        shared.consistent(),
    ensures
        match shared.oldest() {
            Some(cmd) => shared.relieved().delivers(Event::Command(cmd)),
            None => shared.relieved() == shared && shared.sent == shared.received,
        },
{
    let after = shared.relieved();
    if let Some(cmd) = shared.oldest() {
        assert(after.taken.is_prefix_of(after.sent));
        assert(after.received.is_prefix_of(after.taken));
        assert(after.balanced());
    } else {
        assert(shared.sent =~= shared.taken);
    }
}

/// No task has more cancellation markers than the channel holds commands, and one.
pub proof fn law_markers_bounded<T>(shared: SharedModel<T>, id: T)
    requires
        shared.orderly(),
        shared.taken.len() <= shared.received.len() + 1,
    ensures
        marks(shared.cancelled, id) <= shared.line.capacity + 1,
{
    let n = shared.received.len() as int;
    assert(shared.sent.take(n) =~= shared.received);
    lemma_mentions_prefix(shared.sent, n, id);
    assert(marks(shared.cancelled, id) + mentions(shared.received, id) == mentions(
        shared.sent,
        id,
    ));
}

/// The worker takes back one marker for every command that it carries out, so the markers
/// stay balanced, and it fires no task while a command about it is on its way.
pub proof fn law_step_consistent<T>(m: Machine<T>, event: Event<T>)
    requires
        m.worker.sound(),
        m.worker.accepts(event),
        m.shared.delivers(event),
    ensures
        ({
            let (after, action) = m.stepped(event);
            &&& after.shared.consistent()
            &&& action matches Action::Fire(id) ==> !after.shared.on_its_way(id)
        }),
{
    let (after, action) = m.stepped(event);
    let shared = m.shared;
    lemma_step_shared(m, event);
    law_step(m, event);
    assert forall|id: T| #![trigger marks(after.shared.cancelled, id)] marks(
        after.shared.cancelled,
        id,
    ) + mentions(after.shared.received, id) == mentions(after.shared.sent, id) by {
        assert(marks(shared.cancelled, id) + mentions(shared.received, id) == mentions(
            shared.sent,
            id,
        ));
        match event {
            Event::Command(cmd) => {
                let next = shared.taken;
                lemma_mentions_push(shared.received, cmd, id);
                assert(shared.sent.take(next.len() as int) =~= next);
                lemma_mentions_prefix(shared.sent, next.len() as int, id);
                match cmd {
                    Cmd::Insert(subject, _) | Cmd::Reset(subject, _) | Cmd::Remove(subject) => {
                        lemma_unmarked(shared.cancelled, subject, id);
                    },
                    Cmd::Shutdown => {},
                }
            },
            _ => {},
        }
    }
    match event {
        Event::Command(cmd) => {
            match cmd {
                Cmd::Insert(subject, _) | Cmd::Reset(subject, _) | Cmd::Remove(subject) => {
                    lemma_unmarked(shared.cancelled, subject, subject);
                },
                Cmd::Shutdown => {},
            }
        },
        _ => {},
    }
    match action {
        Action::Fire(id) => {
            if after.shared.on_its_way(id) {
                lemma_on_its_way_marks(after.shared, id);
            }
        },
        _ => {},
    }
}

/// Taking back a marker.
proof fn lemma_unmarked<T>(cancelled: Map<T, usize>, subject: T, id: T)
    requires
        trimmed(cancelled),
    ensures
        trimmed(unmarked(cancelled, subject)),
        marks(unmarked(cancelled, subject), id) == if id == subject && marks(cancelled, id) > 0 {
            marks(cancelled, id) - 1
        } else {
            marks(cancelled, id)
        },
{
}

/// An insert, reset or remove call keeps the counts right, whatever becomes of its command:
/// if the channel takes it, it is one more that was inserted, unless it is a remove; if the
/// channel gives it back, it is one more that was dropped, and its marker is taken back.
pub proof fn law_call_counts<T>(shared: SharedModel<T>, cmd: Cmd<T>, id: T)
    requires
        shared.wf(),
        marks(shared.cancelled, id) < usize::MAX,
        cmd.concerns(id),
    ensures
        shared.has_place() ==> shared.called(cmd, true).wf(),
        shared.called(cmd, false).wf(),
        shared.announced(id).bounced(cmd).acknowledged(id).refused() == shared.bounced(
            cmd,
        ).refused(),
{
    law_unmark_undoes_mark(shared.cancelled, id);
    lemma_counts_push(shared.sent, cmd);
    lemma_counts_push(shared.returned, cmd);
    assert(shared.taken.is_prefix_of(shared.sent.push(cmd)));
}

/// A shutdown call keeps the counts right, whatever becomes of it: it is not counted.
pub proof fn law_shutdown_counts<T>(shared: SharedModel<T>)
    requires
        shared.wf(),
    ensures
        shared.has_place() ==> shared.called(Cmd::Shutdown, true).wf(),
        shared.called(Cmd::Shutdown, false).wf(),
{
    assert(shared.taken.is_prefix_of(shared.sent.push(Cmd::Shutdown)));
    lemma_counts_push(shared.sent, Cmd::Shutdown);
    lemma_counts_push(shared.returned, Cmd::Shutdown);
}

/// The worker does not touch what handles count, so over any history of calls and steps the
/// counts are those of the calls: as long as a `usize` holds them, `dropped` is the number of
/// insert, reset and remove calls that were refused, and `inserted` that of the insert and
/// reset calls that were accepted.
pub proof fn law_step_counts<T>(m: Machine<T>, event: Event<T>)
    requires
        m.worker.sound(),
        m.worker.accepts(event),
        m.shared.wf(),
    ensures
        m.stepped(event).0.shared.wf(),
        m.stepped(event).0.shared.metrics.inserted == m.shared.metrics.inserted,
        m.stepped(event).0.shared.metrics.dropped == m.shared.metrics.dropped,
        m.stepped(event).0.shared.sent == m.shared.sent,
        m.stepped(event).0.shared.returned == m.shared.returned,
{
    lemma_step_shared(m, event);
    match event {
        Event::Command(cmd) => {
            match cmd {
                Cmd::Insert(subject, _) | Cmd::Reset(subject, _) | Cmd::Remove(subject) => {
                    lemma_unmarked(m.shared.cancelled, subject, subject);
                },
                Cmd::Shutdown => {},
            }
        },
        _ => {},
    }
}

/// What can happen to a timing wheel.
pub enum Occurrence<T> {
    /// A handle was asked for a command, which the channel took (`true`) or gave back.
    Call(Cmd<T>, bool),
    /// The oldest command was taken from the channel, if there was one.
    Take,
    /// The worker took an event.
    Step(Event<T>),
}

impl<T> Machine<T> {
    /// What a history leads to.
    pub open spec fn after(self, history: Seq<Occurrence<T>>) -> Self
        decreases history.len(),
    {
        if history.len() == 0 {
            self
        } else {
            let before = self.after(history.drop_last());
            match history.last() {
                Occurrence::Call(cmd, accepted) => Machine {
                    worker: before.worker,
                    shared: before.shared.called(cmd, accepted),
                },
                Occurrence::Take => Machine {
                    worker: before.worker,
                    shared: before.shared.relieved(),
                },
                Occurrence::Step(event) => before.stepped(event).0,
            }
        }
    }

    /// The worker could take every event of the history when it came.
    pub open spec fn allows(self, history: Seq<Occurrence<T>>) -> bool
        decreases history.len(),
    {
        history.len() > 0 ==> {
            &&& self.allows(history.drop_last())
            &&& history.last() matches Occurrence::Step(event) ==> self.after(
                history.drop_last(),
            ).worker.accepts(event)
        }
    }
}

/// How many insert and reset calls of a history were accepted.
pub open spec fn accepted_bookings<T>(history: Seq<Occurrence<T>>) -> nat {
    history.filter(
        |o: Occurrence<T>| o matches Occurrence::Call(cmd, accepted) && accepted && is_booking(cmd),
    ).len()
}

/// How many insert, reset and remove calls of a history were refused.
pub open spec fn refused_requests<T>(history: Seq<Occurrence<T>>) -> nat {
    history.filter(
        |o: Occurrence<T>|
            o matches Occurrence::Call(cmd, accepted) && !accepted && !(cmd is Shutdown),
    ).len()
}

/// Over any history, `dropped` counts the insert, reset and remove calls that were refused,
/// and `inserted` the insert and reset calls that were accepted, as long as a `usize` holds
/// them.
pub proof fn law_counters<T>(m: Machine<T>, history: Seq<Occurrence<T>>)
    requires
        m.worker.sound(),
        m.allows(history),
    ensures
        m.after(history).worker.sound(),
        ({
            let before = m.shared.metrics;
            let after = m.after(history).shared.metrics;
            &&& before.dropped + refused_requests(history) <= usize::MAX ==> after.dropped
                == before.dropped + refused_requests(history)
            &&& before.inserted + accepted_bookings(history) <= usize::MAX ==> after.inserted
                == before.inserted + accepted_bookings(history)
        }),
    decreases history.len(),
{
    reveal(Seq::filter);
    if history.len() > 0 {
        let before = m.after(history.drop_last());
        law_counters(m, history.drop_last());
        match history.last() {
            Occurrence::Call(_, _) | Occurrence::Take => {},
            Occurrence::Step(event) => {
                law_step(before, event);
                lemma_step_shared(before, event);
            },
        }
    }
}

impl<T> Machine<T> {
    /// A drain in which the callbacks called so far ended as `outcomes` says, `true` for one
    /// that returned and `false` for one that panicked.
    pub open spec fn drained_through(self, outcomes: Seq<bool>) -> (Self, Action<T>)
        decreases outcomes.len(),
    {
        if outcomes.len() == 0 {
            self.drained()
        } else {
            let before = self.drained_through(outcomes.drop_last()).0;
            Machine {
                worker: before.worker,
                shared: before.shared.fired(outcomes.last()),
            }.drained()
        }
    }
}

/// How many callbacks ended as `returned` says.
pub open spec fn ended(outcomes: Seq<bool>, returned: bool) -> nat {
    outcomes.filter(|outcome: bool| outcome == returned).len()
}

/// Over a whole drain, every callback that returned is counted as an expiration and every one
/// that panicked as abnormal, as long as a `usize` holds the counts; the other counts of the
/// handles and the number of active tasks stay.  Which callbacks come next does not depend on
/// how those before them ended.
pub proof fn law_drain_counts<T>(m: Machine<T>, outcomes: Seq<bool>, others: Seq<bool>)
    requires
        m.worker.sound(),
    ensures
        ({
            let after = m.drained_through(outcomes).0.shared.metrics;
            let before = m.shared.metrics;
            &&& before.expirations + ended(outcomes, true) <= usize::MAX ==> after.expirations
                == before.expirations + ended(outcomes, true)
            &&& before.abnormal + ended(outcomes, false) <= usize::MAX ==> after.abnormal
                == before.abnormal + ended(outcomes, false)
            &&& after.active == before.active
            &&& after.inserted == before.inserted
            &&& after.dropped == before.dropped
        }),
        outcomes.len() == others.len() ==> {
            &&& m.drained_through(outcomes).1 == m.drained_through(others).1
            &&& m.drained_through(outcomes).0.worker == m.drained_through(others).0.worker
        },
{
    lemma_drained_through(m, outcomes);
    if outcomes.len() == others.len() {
        lemma_drained_through_alike(m, outcomes, others);
    }
}

proof fn lemma_drained_through<T>(m: Machine<T>, outcomes: Seq<bool>)
    requires
        m.worker.sound(),
    ensures
        m.drained_through(outcomes).0.worker.sound(),
        ({
            let after = m.drained_through(outcomes).0.shared.metrics;
            let before = m.shared.metrics;
            &&& before.expirations + ended(outcomes, true) <= usize::MAX ==> after.expirations
                == before.expirations + ended(outcomes, true)
            &&& before.abnormal + ended(outcomes, false) <= usize::MAX ==> after.abnormal
                == before.abnormal + ended(outcomes, false)
            &&& after.active == before.active
            &&& after.inserted == before.inserted
            &&& after.dropped == before.dropped
        }),
    decreases outcomes.len(),
{
    reveal(Seq::filter);
    if outcomes.len() == 0 {
        lemma_drained(m);
        lemma_drained_sound(m);
    } else {
        let rest = outcomes.drop_last();
        lemma_drained_through(m, rest);
        let before = m.drained_through(rest).0;
        let mid = Machine {
            worker: before.worker,
            shared: before.shared.fired(outcomes.last()),
        };
        lemma_drained(mid);
        lemma_drained_sound(mid);
    }
}

proof fn lemma_drained_through_alike<T>(m: Machine<T>, outcomes: Seq<bool>, others: Seq<bool>)
    requires
        outcomes.len() == others.len(),
    ensures
        m.drained_through(outcomes).1 == m.drained_through(others).1,
        m.drained_through(outcomes).0.worker == m.drained_through(others).0.worker,
        m.drained_through(outcomes).0.shared.cancelled == m.drained_through(
            others,
        ).0.shared.cancelled,
    decreases outcomes.len(),
{
    if outcomes.len() > 0 {
        lemma_drained_through_alike(m, outcomes.drop_last(), others.drop_last());
        let before = m.drained_through(outcomes.drop_last()).0;
        let before2 = m.drained_through(others.drop_last()).0;
        lemma_drained_alike(
            Machine { worker: before.worker, shared: before.shared.fired(outcomes.last()) },
            Machine { worker: before2.worker, shared: before2.shared.fired(others.last()) },
        );
    }
}

impl<T> Machine<T> {
    /// The last command about `id` that the channel has accepted removes it, and if the
    /// worker has carried that command out, it knows nothing of `id`.
    pub open spec fn silenced(self, id: T) -> bool {
        exists|k: int| #[trigger] self.silenced_by(k, id)
    }

    /// The command at `k` is the last one about `id`.
    pub open spec fn silenced_by(self, k: int, id: T) -> bool {
        &&& 0 <= k < self.shared.sent.len()
        &&& self.shared.sent[k] == Cmd::Remove(id)
        &&& forall|j: int| k < j < self.shared.sent.len() ==> !(#[trigger]
            self.shared.sent[j]).concerns(id)
        &&& k < self.shared.received.len() ==> self.worker.forgot(id)
    }
}

/// A remove that is accepted silences its task, and so it stays while only commands about
/// other tasks follow.
pub proof fn law_remove_silences<T>(m: Machine<T>, id: T)
    requires
        m.shared.orderly(),
    ensures
        (Machine { worker: m.worker, shared: m.shared.called(Cmd::Remove(id), true) }).silenced(id),
        forall|cmd: Cmd<T>, accepted: bool|
            m.silenced(id) && !cmd.concerns(id) ==> (Machine {
                worker: m.worker,
                shared: #[trigger] m.shared.called(cmd, accepted),
            }).silenced(id),
{
    let after = Machine { worker: m.worker, shared: m.shared.called(Cmd::Remove(id), true) };
    assert(after.silenced_by(m.shared.sent.len() as int, id));
    assert forall|cmd: Cmd<T>, accepted: bool| m.silenced(id) && !cmd.concerns(id) implies (
    Machine {
        worker: m.worker,
        shared: #[trigger] m.shared.called(cmd, accepted),
    }).silenced(id) by {
        let k = choose|k: int| #[trigger] m.silenced_by(k, id);
        let later = Machine { worker: m.worker, shared: m.shared.called(cmd, accepted) };
        assert(later.silenced_by(k, id));
    }
}

/// Once a remove has been accepted, its task does not fire, whatever happens, until it is
/// scheduled again.
pub proof fn law_silenced_never_fires<T>(m: Machine<T>, event: Event<T>, id: T)
    requires
        m.worker.sound(),
        m.worker.accepts(event),
        m.shared.delivers(event),
        m.silenced(id),
    ensures
        m.stepped(event).0.silenced(id),
        m.stepped(event).1 != Action::Fire(id),
{
    let (after, action) = m.stepped(event);
    let k = choose|k: int| #[trigger] m.silenced_by(k, id);
    lemma_step_shared(m, event);
    law_step(m, event);
    law_step_consistent(m, event);
    let n = m.shared.received.len();
    if k < n {
        assert(m.worker.forgot(id));
        match event {
            Event::Command(cmd) => {
                let next = m.shared.received.push(cmd);
                assert(next[n as int] == m.shared.sent[n as int]);
                assert(!cmd.concerns(id));
            },
            _ => {},
        }
    } else {
        match event {
            Event::Command(cmd) => {
                let next = m.shared.received.push(cmd);
                assert(next[n as int] == m.shared.sent[n as int]);
                law_obeyed(m.worker, cmd);
                if k == n {
                    assert(cmd == Cmd::Remove(id));
                    assert(m.stepped(event).0.worker == m.worker.obeyed(cmd));
                } else {
                    assert(after.shared.sent[k].concerns(id));
                    assert(after.shared.on_its_way(id));
                }
            },
            _ => {
                assert(after.shared.sent[k].concerns(id));
                assert(after.shared.on_its_way(id));
            },
        }
    }
    assert(after.silenced_by(k, id));
}

/// After a tick, at most as many callbacks run as a batch holds.  Every callback of a drain
/// uses up a place, and the drain ends when none is left.
pub proof fn law_batch<T>(m: Machine<T>, elapsed: Duration, returned: bool)
    requires
        m.worker.sound(),
    ensures
        m.worker.phase == Phase::Idle ==> ({
            let (after, action) = m.stepped(Event::Ticked(elapsed));
            after.worker.left + if action is Fire {
                1int
            } else {
                0
            } <= m.worker.batch
        }),
        m.worker.accepts(Event::Fired(returned)) ==> ({
            let (after, action) = m.stepped(Event::Fired(returned));
            after.worker.left + if action is Fire {
                1int
            } else {
                0
            } <= m.worker.left
        }),
{
    let target = target_tick(duration_millis(elapsed) as int, m.worker.tick_len);
    law_tick_expires(m.worker, catch_up(m.worker.wheel.now, target) as nat);
    lemma_drained(m.ticked(elapsed));
    lemma_drained(Machine { worker: m.worker, shared: m.shared.fired(returned) });
}

/// The wheel catches up with the clock and never passes it: it moves if it is behind, by at
/// most ten ticks, and stops short of the target only at a multiple of ten.
pub proof fn law_catch_up(now: int, target: int)
    ensures
        now < target ==> 1 <= catch_up(now, target) <= 10 && now + catch_up(now, target) <= target,
        now >= target ==> catch_up(now, target) == 0,
        forall|t: int| now < t < now + catch_up(now, target) ==> #[trigger] (t % 10) != 0,
        now + catch_up(now, target) < target ==> (now + catch_up(now, target)) % 10 == 0,
{
}

/// The tick that the wheel has reached after `ticks` more ticks of the ticker, while the
/// target stands still.
pub open spec fn caught_up(now: int, target: int, ticks: nat) -> int
    decreases ticks,
{
    if ticks == 0 {
        now
    } else {
        let before = caught_up(now, target, (ticks - 1) as nat);
        before + catch_up(before, target)
    }
}

/// A wheel that has fallen behind never passes the target.  Every tick of the ticker takes it
/// on to the next multiple of ten, until it has reached the target.
pub proof fn law_caught_up(now: int, target: int, ticks: nat)
    requires
        now <= target,
    ensures
        now <= caught_up(now, target, ticks) <= target,
        ticks > 0 ==> caught_up(now, target, ticks) == if 10 * (now / 10 + ticks) < target {
            10 * (now / 10 + ticks)
        } else {
            target
        },
    decreases ticks,
{
    if ticks > 0 {
        law_caught_up(now, target, (ticks - 1) as nat);
    }
}

/// A callback that panics and one that returns differ in nothing but what is counted.
pub proof fn law_panic_isolated<T>(m: Machine<T>)
    requires
        m.worker.sound(),
        m.worker.accepts(Event::Fired(true)),
    ensures
        m.worker.accepts(Event::Fired(false)),
        m.stepped(Event::Fired(true)).1 == m.stepped(Event::Fired(false)).1,
        m.stepped(Event::Fired(true)).0.worker == m.stepped(Event::Fired(false)).0.worker,
        m.stepped(Event::Fired(true)).0.shared.cancelled == m.stepped(
            Event::Fired(false),
        ).0.shared.cancelled,
{
    lemma_drained_alike(
        Machine { worker: m.worker, shared: m.shared.fired(true) },
        Machine { worker: m.worker, shared: m.shared.fired(false) },
    );
}

/// A drain does not depend on the statistics.
proof fn lemma_drained_alike<T>(m: Machine<T>, other: Machine<T>)
    requires
        m.worker == other.worker,
        m.shared.cancelled == other.shared.cancelled,
    ensures
        m.drained().1 == other.drained().1,
        m.drained().0.worker == other.drained().0.worker,
        m.drained().0.shared.cancelled == other.drained().0.shared.cancelled,
    decreases m.worker.left,
{
    if m.worker.left > 0 && m.worker.pending.len() > 0 {
        lemma_drained_alike(
            Machine { worker: m.worker.popped(), shared: m.shared },
            Machine { worker: other.worker.popped(), shared: other.shared },
        );
    }
}

impl<T> WorkerModel<T> {
    /// A drain has no more room than there are pending callbacks, and none is left when it is
    /// over.  A worker that shuts down has moved every task to the pending callbacks and has room
    /// to take all of them; when it collects or stops, none is pending.
    pub open spec fn winds_up(self) -> bool {
        match self.phase {
            Phase::Idle => self.left == 0,
            Phase::Draining => self.left <= self.pending.len(),
            Phase::Closing | Phase::Flushing => {
                &&& self.left == self.pending.len()
                &&& forall|id: T| !#[trigger] self.wheel.waits(id)
            },
            Phase::Collecting => self.pending.len() == 0 && self.left == 0,
            Phase::Stopped => {
                &&& self.pending.len() == 0
                &&& self.left == 0
                &&& forall|id: T| !#[trigger] self.wheel.waits(id)
            },
        }
    }
}

/// A shutdown leaves nothing behind: the worker stops only when no task waits and no
/// callback is pending.  What it asks for says where it is in its life.
pub proof fn law_shutdown_flushes<T>(m: Machine<T>, event: Event<T>)
    requires
        m.worker.sound(),
        m.worker.accepts(event),
        m.worker.winds_up(),
    ensures
        ({
            let (after, action) = m.stepped(event);
            &&& after.worker.winds_up()
            &&& action is Wait <==> after.worker.phase == Phase::Idle
            &&& action is Poll <==> after.worker.phase == Phase::Collecting
            &&& action is Stop <==> after.worker.phase == Phase::Stopped
            &&& action is Stop ==> forall|id: T| #[trigger] after.worker.forgot(id)
        }),
{
    match event {
        Event::Command(cmd) => {
            law_obeyed(m.worker, cmd);
            let mid = m.obeyed(cmd);
            if m.worker.phase == Phase::Collecting {
                assert forall|id: T| !#[trigger] mid.worker.pending.contains(id) by {
                    assert(!m.worker.pending.contains(id));
                }
                if mid.worker.pending.len() > 0 {
                    assert(mid.worker.pending.contains(mid.worker.pending[0]));
                }
            } else if cmd is Shutdown {
                law_swept_out(mid.worker);
                lemma_drained(mid.closed());
            }
        },
        Event::Exhausted => {
            law_swept_out(m.worker);
            if m.worker.phase == Phase::Collecting {
                lemma_drained(m.flushed());
            } else {
                lemma_drained(m.closed());
            }
        },
        Event::Ticked(elapsed) => {
            let target = target_tick(duration_millis(elapsed) as int, m.worker.tick_len);
            law_tick_expires(m.worker, catch_up(m.worker.wheel.now, target) as nat);
            lemma_drained(m.ticked(elapsed));
        },
        Event::Fired(returned) => {
            lemma_drained(Machine { worker: m.worker, shared: m.shared.fired(returned) });
        },
    }
}

} // verus!
