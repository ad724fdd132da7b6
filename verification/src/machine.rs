//! The worker as mathematics: a machine that takes events and asks for actions.

use std::time::Duration;

use vstd::prelude::*;

use crate::cancel::marks;
use crate::command::Cmd;
use crate::model::WheelModel;
use crate::shared::SharedModel;
use crate::time::duration_millis;
use crate::wheel::{in_range, ticks_of};

verus! {

/// Where the worker is in its life.
#[derive(Debug, Clone, Copy, PartialEq, Eq, Structural)]
pub enum Phase {
    /// It waits for a command or a tick.
    Idle,
    /// It fires what a tick has brought, up to the batch limit.
    Draining,
    /// It shuts down and fires everything that is left.
    Closing,
    /// It collects the commands that are still in the channel.
    Collecting,
    /// It fires what those commands have brought.
    Flushing,
    /// It is done.
    Stopped,
}

/// What happens to the worker.
pub enum Event<T> {
    /// A command arrived.
    Command(Cmd<T>),
    /// No command is left: the channel is closed, or empty while the worker shuts down.
    Exhausted,
    /// The ticker ticked, this long after the worker started.
    Ticked(Duration),
    /// A callback returned (`true`) or panicked (`false`).
    Fired(bool),
}

/// What the worker asks for next.
pub enum Action<T> {
    /// Wait for a command or a tick.
    Wait,
    /// See whether another command is in the channel.
    Poll,
    /// Call the callback with this id.
    Fire(T),
    /// End.
    Stop,
}

/// The contents of a worker.
#[verifier::ext_equal]
pub struct WorkerModel<T> {
    /// The wheel.
    pub wheel: WheelModel<T>,
    /// The length of a tick in milliseconds.
    pub tick_len: int,
    /// The most ids that are taken from `pending` after a tick.
    pub batch: nat,
    /// The expired ids that wait for their callback, the next one last.
    pub pending: Seq<T>,
    /// How many of them may still be taken before the drain under way ends.
    pub left: nat,
    /// Where the worker is in its life.
    pub phase: Phase,
}

/// A worker with what it shares with the handles.
#[verifier::ext_equal]
#[verifier::reject_recursive_types(T)]
pub struct Machine<T> {
    pub worker: WorkerModel<T>,
    pub shared: SharedModel<T>,
}

/// The tick that the wheel should have reached after `elapsed_ms` milliseconds.
pub open spec fn target_tick(elapsed_ms: int, tick_len: int) -> int {
    (elapsed_ms / tick_len) % 0x1_0000_0000_0000_0000
}

/// How many ticks the worker catches up at once: to the target, but no further than the
/// next multiple of ten.
pub open spec fn catch_up(now: int, target: int) -> int {
    if target <= now {
        0
    } else if target - now < 10 - now % 10 {
        target - now
    } else {
        10 - now % 10
    }
}

impl<T> WorkerModel<T> {
    /// A new worker.
    pub open spec fn fresh(tick_len: int, batch: nat) -> Self {
        WorkerModel {
            wheel: WheelModel::fresh(),
            tick_len,
            batch,
            pending: Seq::empty(),
            left: 0,
            phase: Phase::Idle,
        }
    }

    /// The delay, in ticks, that `timeout` asks for.
    pub open spec fn delay(self, timeout: Duration) -> int {
        ticks_of(duration_millis(timeout) as int, self.tick_len)
    }

    /// The clock can run to the end of the timeout that `cmd` asks for.
    pub open spec fn fits(self, cmd: Cmd<T>) -> bool {
        match cmd {
            Cmd::Insert(_, timeout) | Cmd::Reset(_, timeout) => in_range(
                self.wheel.now,
                self.delay(timeout),
            ),
            _ => true,
        }
    }

    /// The worker can take `event` now.
    pub open spec fn accepts(self, event: Event<T>) -> bool {
        match event {
            Event::Command(cmd) => (self.phase == Phase::Idle || self.phase == Phase::Collecting)
                && self.fits(cmd),
            Event::Exhausted => self.phase == Phase::Idle || self.phase == Phase::Collecting,
            Event::Ticked(_) => self.phase == Phase::Idle,
            Event::Fired(_) => self.phase == Phase::Draining || self.phase == Phase::Closing
                || self.phase == Phase::Flushing,
        }
    }

    /// A pending callback of `id` is dropped.
    pub open spec fn purged(self, id: T) -> Self {
        WorkerModel { pending: self.pending.filter(|x: T| x != id), ..self }
    }

    /// The worker has carried out `cmd`.
    pub open spec fn obeyed(self, cmd: Cmd<T>) -> Self {
        match cmd {
            Cmd::Insert(id, timeout) | Cmd::Reset(id, timeout) => WorkerModel {
                wheel: self.wheel.scheduled(id, self.delay(timeout)),
                ..self.purged(id)
            },
            Cmd::Remove(id) => WorkerModel { wheel: self.wheel.without(id), ..self.purged(id) },
            Cmd::Shutdown => self,
        }
    }

    /// `n` ticks pass; what expires joins the pending ids.
    pub open spec fn advanced(self, n: nat) -> Self {
        WorkerModel {
            wheel: self.wheel.after(n),
            pending: self.pending + self.wheel.handed_out_upto(n),
            ..self
        }
    }

    /// Every task that is left joins the pending ids.
    pub open spec fn swept_out(self) -> Self {
        WorkerModel {
            wheel: self.wheel.cleared(),
            pending: self.pending + self.wheel.all_ids(),
            ..self
        }
    }

    /// A drain of at most `limit` ids begins.
    pub open spec fn draining(self, limit: nat, phase: Phase) -> Self {
        WorkerModel {
            left: if self.pending.len() < limit {
                self.pending.len()
            } else {
                limit
            },
            phase,
            ..self
        }
    }

    /// The next id is taken from the pending ones.
    pub open spec fn popped(self) -> Self {
        WorkerModel { pending: self.pending.drop_last(), left: (self.left - 1) as nat, ..self }
    }

    /// The drain under way is over.
    pub open spec fn rested(self) -> Self {
        WorkerModel {
            left: 0,
            phase: match self.phase {
                Phase::Draining => Phase::Idle,
                Phase::Closing => Phase::Collecting,
                _ => Phase::Stopped,
            },
            ..self
        }
    }
}

impl<T> SharedModel<T> {
    /// The worker has taken note of `cmd`: its marker is taken back.
    pub open spec fn obeyed(self, cmd: Cmd<T>) -> Self {
        match cmd {
            Cmd::Insert(id, _) | Cmd::Reset(id, _) | Cmd::Remove(id) => self.acknowledged(id).heard(
                cmd,
            ),
            Cmd::Shutdown => self.heard(cmd),
        }
    }
}

impl<T> Machine<T> {
    /// What the worker asks for when it has nothing to fire.
    pub open spec fn rest_action(self) -> Action<T> {
        match self.worker.phase {
            Phase::Draining => Action::Wait,
            Phase::Closing => Action::Poll,
            _ => Action::Stop,
        }
    }

    /// The drain under way goes on: ids with a cancellation marker are dropped, the first
    /// other one is fired.
    pub open spec fn drained(self) -> (Self, Action<T>)
        decreases self.worker.left,
    {
        if self.worker.left == 0 || self.worker.pending.len() == 0 {
            (
                Machine {
                    worker: self.worker.rested(),
                    shared: self.shared.awaiting(self.worker.pending.len()),
                },
                self.rest_action(),
            )
        } else {
            let id = self.worker.pending.last();
            let rest = Machine { worker: self.worker.popped(), shared: self.shared };
            if marks(self.shared.cancelled, id) > 0 {
                rest.drained()
            } else {
                (rest, Action::Fire(id))
            }
        }
    }

    /// The worker has carried out `cmd`.
    pub open spec fn obeyed(self, cmd: Cmd<T>) -> Self {
        Machine { worker: self.worker.obeyed(cmd), shared: self.shared.obeyed(cmd) }
    }

    /// A tick, `elapsed` after the start: the wheel catches up, and a drain begins.
    pub open spec fn ticked(self, elapsed: Duration) -> Self {
        let target = target_tick(duration_millis(elapsed) as int, self.worker.tick_len);
        let n = catch_up(self.worker.wheel.now, target) as nat;
        let worker = self.worker.advanced(n);
        Machine {
            worker: worker.draining(worker.batch, Phase::Draining),
            shared: if n > 0 {
                self.shared.tracking(worker.wheel.waiting().len())
            } else {
                self.shared
            },
        }
    }

    /// The worker begins to shut down.
    pub open spec fn closed(self) -> Self {
        let worker = self.worker.swept_out();
        Machine {
            worker: worker.draining(worker.pending.len(), Phase::Closing),
            shared: self.shared.tracking(0),
        }
    }

    /// The last drain begins.
    pub open spec fn flushed(self) -> Self {
        let worker = self.worker.swept_out();
        Machine {
            worker: worker.draining(worker.pending.len(), Phase::Flushing),
            shared: self.shared,
        }
    }

    /// What an event that the worker accepts leads to.
    pub open spec fn stepped(self, event: Event<T>) -> (Self, Action<T>) {
        match event {
            Event::Command(cmd) => if self.worker.phase == Phase::Collecting {
                (self.obeyed(cmd), Action::Poll)
            } else if cmd is Shutdown {
                self.obeyed(cmd).closed().drained()
            } else {
                (self.obeyed(cmd), Action::Wait)
            },
            Event::Exhausted => if self.worker.phase == Phase::Collecting {
                self.flushed().drained()
            } else {
                self.closed().drained()
            },
            Event::Ticked(elapsed) => self.ticked(elapsed).drained(),
            Event::Fired(returned) => Machine {
                worker: self.worker,
                shared: self.shared.fired(returned),
            }.drained(),
        }
    }
}

} // verus!
