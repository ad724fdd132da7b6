//! The worker: it owns the wheel and decides what happens next.

use std::hash::Hash;
use std::time::Duration;

use vstd::prelude::*;

use crate::channel::CmdReceiver;
use crate::command::Cmd;
use crate::config::WheelConfig;
use crate::ids::{lawful_id, same_id};
use crate::machine::{catch_up, target_tick, Action, Event, Machine, Phase, WorkerModel};
use crate::promises::law_compensation;
use crate::shared::Shared;
use crate::system::{law_fresh_worker, law_shutdown_flushes, law_step, law_step_counts};
use crate::time::duration_millis;
use crate::wheel::{tick_length, Wheel};

verus! {

/// The worker of a timing wheel.
///
/// It does no I/O: it takes one [`Event`] after the other and answers each with the
/// [`Action`] that is to be performed next.
pub struct Worker<T> {
    wheel: Wheel<T>,
    tick_ms: u128,
    batch: usize,
    pending: Vec<T>,
    left: usize,
    phase: Phase,
}

impl<T: Eq + Hash + Clone> View for Worker<T> {
    type V = WorkerModel<T>;

    closed spec fn view(&self) -> WorkerModel<T> {
        WorkerModel {
            wheel: self.wheel@,
            tick_len: self.tick_ms as int,
            batch: self.batch as nat,
            pending: self.pending@,
            left: self.left as nat,
            phase: self.phase,
        }
    }
}

/// A worker with what it shares with the handles.
pub open spec fn machine<T: Eq + Hash + Clone>(worker: Worker<T>, shared: Shared<T>) -> Machine<T> {
    Machine { worker: worker@, shared: shared@ }
}

/// What the worker is told of the oldest command in the channel.
pub open spec fn event_of<T>(oldest: Option<Cmd<T>>) -> Event<T> {
    match oldest {
        Some(cmd) => Event::Command(cmd),
        None => Event::Exhausted,
    }
}

/// Computes [`catch_up`] to the tick that the wheel should have reached.
pub fn ticks_behind(now: u64, elapsed_ms: u128, tick_ms: u128) -> (behind: u64)
    requires
        tick_ms > 0,
    ensures
        behind == catch_up(now as int, target_tick(elapsed_ms as int, tick_ms as int)),
        behind <= 10,
        elapsed_ms < (u64::MAX + 1) * tick_ms ==> {
            &&& behind > 0 ==> (now + behind) * tick_ms <= elapsed_ms
            &&& (now + 1) * tick_ms <= elapsed_ms ==> behind > 0
            &&& (now + behind + 1) * tick_ms <= elapsed_ms ==> (now + behind) % 10 == 0
        },
{
    proof {
        if elapsed_ms < (u64::MAX + 1) * tick_ms {
            law_compensation(now as int, elapsed_ms as int, tick_ms as int);
        }
    }
    let target: u64 = ((elapsed_ms / tick_ms) % 0x1_0000_0000_0000_0000) as u64;
    let stretch: u64 = 10 - now % 10;
    if target <= now {
        0
    } else if target - now < stretch {
        target - now
    } else {
        stretch
    }
}

impl<T: Eq + Hash + Clone> Worker<T> {
    /// The wheel is in order, and it goes by the clock of the worker.
    pub closed spec fn ready(&self) -> bool {
        &&& self.wheel.wf()
        &&& self.tick_ms > 0
        &&& self.tick_ms == self.wheel.tick_len()
        &&& lawful_id::<T>()
    }

    /// The worker is in order: no task is known to it twice, and when it shuts down, it
    /// leaves none behind.
    pub open spec fn wf(&self) -> bool {
        &&& self.ready()
        &&& self@.sound()
        &&& self@.winds_up()
    }

    /// A new worker.
    pub fn new(config: &WheelConfig) -> (worker: Self)
        requires
            lawful_id::<T>(),
            config.batch_size >= 1,
        ensures
            worker.wf(),
            worker@ == WorkerModel::<T>::fresh(
                tick_length(duration_millis(config.tick_interval) as int),
                config.batch_size as nat,
            ),
            duration_millis(config.tick_interval) >= 1 ==> worker@.tick_len == duration_millis(
                config.tick_interval,
            ),
            duration_millis(config.tick_interval) == 0 ==> worker@.tick_len == 1,
            worker@.batch == config.batch_size,
    {
        let millis: u128 = config.tick_interval.as_millis();
        let worker = Worker {
            wheel: Wheel::new(config.tick_interval),
            tick_ms: if millis < 1 {
                1
            } else {
                millis
            },
            batch: config.batch_size,
            pending: Vec::new(),
            left: 0,
            phase: Phase::Idle,
        };
        let ghost tick_len = tick_length(duration_millis(config.tick_interval) as int);
        assert(worker@ =~= WorkerModel::<T>::fresh(tick_len, config.batch_size as nat));
        proof {
            law_fresh_worker::<T>(tick_len, config.batch_size as nat);
        }
        worker
    }

    /// Whether the worker can take `event` now.
    pub fn accepts(&self, event: &Event<T>) -> (accepts: bool)
        requires
            self.wf(),
        ensures
            accepts == self@.accepts(*event),
    {
        proof {
            self.wheel.lemma_now();
        }
        match event {
            Event::Command(cmd) => {
                let fits: bool = match cmd {
                    Cmd::Insert(_, timeout) => self.wheel.fits(*timeout),
                    Cmd::Reset(_, timeout) => self.wheel.fits(*timeout),
                    _ => true,
                };
                (self.phase == Phase::Idle || self.phase == Phase::Collecting) && fits
            },
            Event::Exhausted => self.phase == Phase::Idle || self.phase == Phase::Collecting,
            Event::Ticked(_) => self.phase == Phase::Idle,
            Event::Fired(_) => self.phase == Phase::Draining || self.phase == Phase::Closing
                || self.phase == Phase::Flushing,
        }
    }

    /// Drop every pending callback of `id`.
    fn purge(&mut self, id: &T)
        requires
            old(self).ready(),
        ensures
            final(self).ready(),
            final(self)@ == old(self)@.purged(*id),
    {
        let ghost before = self.pending@;
        let ghost keep = |x: T| x != *id;
        let ghost mut seen: int = 0;
        let mut k: usize = 0;
        proof {
            reveal_with_fuel(Seq::filter, 1);
            assert(before.take(0).filter(keep) =~= Seq::empty());
            assert(before.skip(0) =~= before);
        }
        while k < self.pending.len()
            invariant
                self.ready(),
                0 <= seen <= before.len(),
                keep == (|x: T| x != *id),
                k == before.take(seen).filter(keep).len(),
                self.pending@ == before.take(seen).filter(keep) + before.skip(seen),
                self@ == (WorkerModel { pending: self.pending@, ..old(self)@ }),
            decreases before.len() - seen,
        {
            proof {
                assert(self.pending@[k as int] == before[seen]);
                assert(before.take(seen + 1) =~= before.take(seen).push(before[seen]));
                before.take(seen).lemma_filter_push(before[seen], keep);
                assert(before.skip(seen).drop_first() =~= before.skip(seen + 1));
            }
            let ghost kept = before.take(seen).filter(keep);
            let ghost rest = before.skip(seen);
            if same_id(&self.pending[k], id) {
                self.pending.remove(k);
                assert(self.pending@ =~= kept + rest.drop_first());
            } else {
                k = k + 1;
                assert(self.pending@ =~= kept.push(before[seen]) + rest.drop_first());
            }
            proof {
                seen = seen + 1;
            }
        }
        assert(before.take(seen) =~= before);
        assert(before.skip(seen) =~= Seq::empty());
        assert(self.pending@ =~= before.filter(keep));
    }

    /// Carry out a command.
    fn obey(&mut self, shared: &mut Shared<T>, cmd: Cmd<T>)
        requires
            old(self).ready(),
            old(self)@.fits(cmd),
        ensures
            final(self).ready(),
            machine(*final(self), *final(shared)) == machine(*old(self), *old(shared)).obeyed(cmd),
    {
        let ghost asked = cmd;
        shared.hear(Ghost(asked));
        match cmd {
            Cmd::Insert(id, timeout) => {
                self.acknowledge(shared, &id);
                proof {
                    self.wheel.lemma_now();
                }
                self.wheel.schedule(id, timeout);
            },
            Cmd::Reset(id, timeout) => {
                self.acknowledge(shared, &id);
                proof {
                    self.wheel.lemma_now();
                }
                self.wheel.schedule(id, timeout);
            },
            Cmd::Remove(id) => {
                self.acknowledge(shared, &id);
                self.wheel.remove(&id);
            },
            Cmd::Shutdown => {},
        }
        assert(machine(*self, *shared) =~= machine(*old(self), *old(shared)).obeyed(asked));
    }

    /// Take back a cancellation marker of `id` and drop its pending callback.
    fn acknowledge(&mut self, shared: &mut Shared<T>, id: &T)
        requires
            old(self).ready(),
        ensures
            final(self).ready(),
            final(self)@ == old(self)@.purged(*id),
            final(shared)@ == old(shared)@.acknowledged(*id),
    {
        shared.acknowledge(id);
        self.purge(id);
    }

    /// Let `n` ticks pass; what expires joins the pending ids.
    fn advance(&mut self, shared: &mut Shared<T>, n: u64)
        requires
            old(self).ready(),
            old(self)@.wheel.now + n <= u64::MAX,
        ensures
            final(self).ready(),
            final(self)@ == old(self)@.advanced(n as nat),
            final(shared)@ == if n > 0 {
                old(shared)@.tracking(final(self)@.wheel.waiting().len())
            } else {
                old(shared)@
            },
    {
        let mut done: u64 = 0;
        while done < n
            invariant
                done <= n,
                self.ready(),
                old(self)@.wheel.now + n <= u64::MAX,
                self.wheel@.now == old(self)@.wheel.now + done,
                self@ == old(self)@.advanced(done as nat),
                shared@ == if done > 0 {
                    old(shared)@.tracking(self@.wheel.waiting().len())
                } else {
                    old(shared)@
                },
            decreases n - done,
        {
            let ghost before = self.pending@;
            proof {
                self.wheel.lemma_now();
            }
            let mut metrics = shared.metrics();
            let mut expired = self.wheel.advance(&mut metrics);
            shared.track(metrics.active);
            let ghost ids = expired@;
            self.pending.append(&mut expired);
            proof {
                self.wheel.lemma_now();
                self.wheel.lemma_view();
                assert(self.wheel.tracked_ids() =~= self.wheel@.waiting());
                let base = old(self)@.pending;
                let wheel = old(self)@.wheel;
                assert(self.pending@ =~= base + wheel.handed_out_upto((done + 1) as nat));
                assert(self@ =~= old(self)@.advanced((done + 1) as nat));
            }
            done = done + 1;
        }
        assert(n == 0 ==> self@ =~= old(self)@.advanced(0));
    }

    /// Every task that is left joins the pending ids.
    fn sweep_out(&mut self)
        requires
            old(self).ready(),
        ensures
            final(self).ready(),
            final(self)@ == old(self)@.swept_out(),
    {
        let mut expired = self.wheel.drain_all();
        self.pending.append(&mut expired);
        assert(self@ =~= old(self)@.swept_out());
    }

    /// Begin a drain of at most `limit` ids.
    fn begin_drain(&mut self, limit: usize, phase: Phase)
        requires
            old(self).ready(),
        ensures
            final(self).ready(),
            final(self)@ == old(self)@.draining(limit as nat, phase),
    {
        self.left = if self.pending.len() < limit {
            self.pending.len()
        } else {
            limit
        };
        self.phase = phase;
    }

    /// Go on with the drain under way: drop ids with a cancellation marker, and fire the
    /// first other one.
    fn drain(&mut self, shared: &mut Shared<T>) -> (action: Action<T>)
        requires
            old(self).ready(),
        ensures
            final(self).ready(),
            (machine(*final(self), *final(shared)), action) == machine(
                *old(self),
                *old(shared),
            ).drained(),
    {
        let ghost goal = machine(*self, *shared).drained();
        while self.left > 0
            invariant
                self.ready(),
                *shared == *old(shared),
                machine(*self, *shared).drained() == goal,
                goal == machine(*old(self), *old(shared)).drained(),
            ensures
                self.ready(),
                machine(*self, *shared).drained() == goal,
                self@.left == 0 || self@.pending.len() == 0,
            decreases self.left,
        {
            let ghost before = machine(*self, *shared);
            match self.pending.pop() {
                Some(id) => {
                    self.left = self.left - 1;
                    assert(machine(*self, *shared) =~= (Machine {
                        worker: before.worker.popped(),
                        shared: before.shared,
                    }));
                    if shared.marker_count(&id) == 0 {
                        return Action::Fire(id);
                    }
                },
                None => {
                    break;
                },
            }
        }
        let ghost before = machine(*self, *shared);
        shared.expect(self.pending.len());
        self.left = 0;
        let action = match self.phase {
            Phase::Draining => {
                self.phase = Phase::Idle;
                Action::Wait
            },
            Phase::Closing => {
                self.phase = Phase::Collecting;
                Action::Poll
            },
            _ => {
                self.phase = Phase::Stopped;
                Action::Stop
            },
        };
        assert(machine(*self, *shared) =~= before.drained().0);
        action
    }

    /// Take an event and say what is to be done next.
    pub fn step(&mut self, shared: &mut Shared<T>, event: Event<T>) -> (action: Action<T>)
        requires
            old(self).wf(),
            old(shared).wf(),
            old(self)@.accepts(event),
        ensures
            final(self).wf(),
            final(shared).wf(),
            (machine(*final(self), *final(shared)), action) == machine(
                *old(self),
                *old(shared),
            ).stepped(event),
    {
        let ghost before = machine(*self, *shared);
        proof {
            law_step(before, event);
            law_shutdown_flushes(before, event);
            law_step_counts(before, event);
        }
        match event {
            Event::Command(cmd) => {
                let closing: bool = matches!(cmd, Cmd::Shutdown);
                self.obey(shared, cmd);
                if self.phase == Phase::Collecting {
                    Action::Poll
                } else if closing {
                    self.close(shared)
                } else {
                    Action::Wait
                }
            },
            Event::Exhausted => {
                if self.phase == Phase::Collecting {
                    self.sweep_out();
                    let all: usize = self.pending.len();
                    self.begin_drain(all, Phase::Flushing);
                    assert(machine(*self, *shared) =~= before.flushed());
                    self.drain(shared)
                } else {
                    self.close(shared)
                }
            },
            Event::Ticked(elapsed) => {
                proof {
                    self.wheel.lemma_now();
                }
                let behind: u64 = ticks_behind(
                    self.wheel.current_tick(),
                    elapsed.as_millis(),
                    self.tick_ms,
                );
                self.advance(shared, behind);
                self.begin_drain(self.batch, Phase::Draining);
                assert(machine(*self, *shared) =~= before.ticked(elapsed));
                self.drain(shared)
            },
            Event::Fired(returned) => {
                shared.count_fired(returned);
                assert(machine(*self, *shared) =~= (Machine {
                    worker: before.worker,
                    shared: before.shared.fired(returned),
                }));
                self.drain(shared)
            },
        }
    }

    /// Begin to shut down.
    fn close(&mut self, shared: &mut Shared<T>) -> (action: Action<T>)
        requires
            old(self).ready(),
        ensures
            final(self).ready(),
            (machine(*final(self), *final(shared)), action) == machine(
                *old(self),
                *old(shared),
            ).closed().drained(),
    {
        shared.track(0);
        self.sweep_out();
        let all: usize = self.pending.len();
        self.begin_drain(all, Phase::Closing);
        assert(machine(*self, *shared) =~= machine(*old(self), *old(shared)).closed());
        self.drain(shared)
    }

    /// Take an event, if the worker can take it now.
    ///
    /// Returns `None`, and changes nothing, for an event that does not belong to the phase
    /// of the worker and for a command whose timeout ends beyond the reach of the clock.
    pub fn try_step(&mut self, shared: &mut Shared<T>, event: Event<T>) -> (action: Option<
        Action<T>,
    >)
        requires
            old(self).wf(),
            old(shared).wf(),
        ensures
            final(self).wf(),
            final(shared).wf(),
            old(self)@.accepts(event) ==> action is Some && (
                machine(*final(self), *final(shared)),
                action->Some_0,
            ) == machine(*old(self), *old(shared)).stepped(event),
            !old(self)@.accepts(event) ==> action is None && machine(*final(self), *final(shared))
                == machine(*old(self), *old(shared)),
    {
        if self.accepts(&event) {
            Some(self.step(shared, event))
        } else {
            None
        }
    }

    /// While the worker collects what is still in the channel: take the next command, or
    /// take note that none is left.
    ///
    /// Returns `None`, and changes nothing of the worker, for a command whose timeout ends
    /// beyond the reach of the clock.
    pub fn poll(&mut self, shared: &mut Shared<T>, commands: &mut CmdReceiver<T>) -> (action:
        Option<Action<T>>)
        requires
            old(self).wf(),
            old(shared).wf(),
            old(commands).line() == old(shared)@.line,
            old(self)@.phase == Phase::Collecting,
        ensures
            final(self).wf(),
            final(shared).wf(),
            final(commands).line() == old(commands).line(),
            ({
                let event = event_of(old(shared)@.oldest());
                let start = Machine { worker: old(self)@, shared: old(shared)@.relieved() };
                let end = machine(*final(self), *final(shared));
                if start.worker.accepts(event) {
                    action is Some && (end, action->Some_0) == start.stepped(event)
                } else {
                    action is None && end == start
                }
            }),
    {
        let event = match shared.take_command(commands) {
            Some(cmd) => Event::Command(cmd),
            None => Event::Exhausted,
        };
        assert(machine(*self, *shared) =~= (Machine {
            worker: old(self)@,
            shared: old(shared)@.relieved(),
        }));
        self.try_step(shared, event)
    }
}

} // verus!
