//! The handle through which tasks are inserted, reset and removed.

use std::hash::Hash;
use std::time::Duration;

use vstd::prelude::*;

use crate::cancel::marks;
use crate::channel::{channel_holds, clone_sender, open_channel, CmdReceiver, CmdSender, Line};
use crate::command::{bookings, requests, Cmd};
use crate::config::WheelConfig;
use crate::ids::{copy_id, lawful_id};
use crate::machine::WorkerModel;
use crate::shared::{Shared, SharedModel};
use crate::system::{law_call_counts, law_shutdown_counts};
use crate::time::duration_millis;
use crate::wheel::tick_length;
use crate::worker::Worker;

verus! {

/// Clonable handle for inserting, resetting, and removing tasks.
///
/// Every command registers a cancellation marker of its task before it is sent.  The worker
/// takes the marker back when it carries the command out, and fires no task that has one.
#[verifier::reject_recursive_types(T)]
pub struct TimingWheel<T> {
    tx: CmdSender<T>,
}

impl<T> Clone for TimingWheel<T> {
    /// Another handle on the same channel.
    fn clone(&self) -> (other: Self)
        ensures
            other.line() == self.line(),
    {
        TimingWheel { tx: clone_sender(&self.tx) }
    }
}

impl<T> TimingWheel<T> {
    /// The channel that the commands go through.
    pub closed spec fn line(&self) -> Line {
        self.tx.line()
    }
}

/// The parts of a timing wheel that has been started.
#[verifier::reject_recursive_types(T)]
pub struct Setup<T> {
    /// The handle.
    pub handle: TimingWheel<T>,
    /// The end of the command channel that the worker listens to.
    pub commands: CmdReceiver<T>,
    /// What handle and worker share.
    pub shared: Shared<T>,
    /// The worker.
    pub worker: Worker<T>,
}

impl<T: Eq + Hash + Clone> TimingWheel<T> {
    /// Set up a new timing wheel: a handle, and a worker that listens to it.
    pub fn start(config: &WheelConfig) -> (setup: Setup<T>)
        requires
            lawful_id::<T>(),
            config.batch_size >= 1,
            channel_holds(config.channel_capacity as int),
        ensures
            setup.shared.wf(),
            setup.commands.line() == setup.handle.line(),
            setup.handle.line().capacity == config.channel_capacity,
            setup.shared@ == SharedModel::<T>::fresh(setup.handle.line()),
            setup.worker.wf(),
            setup.worker@ == WorkerModel::<T>::fresh(
                tick_length(duration_millis(config.tick_interval) as int),
                config.batch_size as nat,
            ),
            setup.worker@.batch == config.batch_size,
            duration_millis(config.tick_interval) >= 1 ==> setup.worker@.tick_len
                == duration_millis(config.tick_interval),
            duration_millis(config.tick_interval) == 0 ==> setup.worker@.tick_len == 1,
    {
        let (tx, commands, ledger) = open_channel(config.channel_capacity);
        Setup {
            handle: TimingWheel { tx },
            commands,
            shared: Shared::new(ledger),
            worker: Worker::new(config),
        }
    }

    /// Hand `cmd` to the channel, which takes it or gives it back.
    fn send(&self, shared: &mut Shared<T>, cmd: Cmd<T>) -> (sent: bool)
        requires
            self.line() == old(shared)@.line,
        ensures
            sent ==> old(shared)@.has_place(),
            final(shared)@ == if sent {
                old(shared)@.logged(cmd)
            } else {
                old(shared)@.bounced(cmd)
            },
    {
        shared.offer(&self.tx, cmd)
    }

    /// Schedule a one-shot task that fires after `timeout`.
    ///
    /// If a task with the same `id` already exists, its timeout is replaced and any pending
    /// callback for that id is cancelled.
    ///
    /// Returns `false` if the command channel is at capacity or closed; then only the count
    /// of dropped commands changes.
    pub fn insert(&self, shared: &mut Shared<T>, id: T, timeout: Duration) -> (accepted: bool)
        requires
            lawful_id::<T>(),
            old(shared).wf(),
            self.line() == old(shared)@.line,
            marks(old(shared)@.cancelled, id) < usize::MAX,
        ensures
            final(shared).wf(),
            final(shared)@ == old(shared)@.called(Cmd::Insert(id, timeout), accepted),
            accepted ==> final(shared)@.sent == old(shared)@.sent.push(Cmd::Insert(id, timeout)),
            !accepted ==> final(shared)@.sent == old(shared)@.sent && final(shared)@.cancelled
                == old(shared)@.cancelled,
            accepted ==> old(shared)@.has_place(),
    {
        proof {
            law_call_counts(shared@, Cmd::Insert(id, timeout), id);
        }
        shared.announce(&id);
        let sent: bool = self.send(shared, Cmd::Insert(copy_id(&id), timeout));
        shared.settle_schedule(&id, sent)
    }

    /// Refresh (or create) an ongoing task with a new timeout.
    ///
    /// The previous callback, if already queued for execution, does not fire: its
    /// cancellation marker is registered before the new timeout is scheduled.
    ///
    /// Returns `false` if the command channel is at capacity or closed; then only the count
    /// of dropped commands changes.
    pub fn reset(&self, shared: &mut Shared<T>, id: T, timeout: Duration) -> (accepted: bool)
        requires
            lawful_id::<T>(),
            old(shared).wf(),
            self.line() == old(shared)@.line,
            marks(old(shared)@.cancelled, id) < usize::MAX,
        ensures
            final(shared).wf(),
            final(shared)@ == old(shared)@.called(Cmd::Reset(id, timeout), accepted),
            accepted ==> final(shared)@.sent == old(shared)@.sent.push(Cmd::Reset(id, timeout)),
            !accepted ==> final(shared)@.sent == old(shared)@.sent && final(shared)@.cancelled
                == old(shared)@.cancelled,
            accepted ==> old(shared)@.has_place(),
    {
        proof {
            law_call_counts(shared@, Cmd::Reset(id, timeout), id);
        }
        shared.announce(&id);
        let sent: bool = self.send(shared, Cmd::Reset(copy_id(&id), timeout));
        shared.settle_schedule(&id, sent)
    }

    /// Cancel a task.  Safe to call for ids that do not exist.
    ///
    /// Returns `false` if the command channel is at capacity or closed; then only the count
    /// of dropped commands changes.
    pub fn remove(&self, shared: &mut Shared<T>, id: &T) -> (accepted: bool)
        requires
            lawful_id::<T>(),
            old(shared).wf(),
            self.line() == old(shared)@.line,
            marks(old(shared)@.cancelled, *id) < usize::MAX,
        ensures
            final(shared).wf(),
            final(shared)@ == old(shared)@.called(Cmd::Remove(*id), accepted),
            accepted ==> final(shared)@.sent == old(shared)@.sent.push(Cmd::Remove(*id)),
            !accepted ==> final(shared)@.sent == old(shared)@.sent && final(shared)@.cancelled
                == old(shared)@.cancelled,
            accepted ==> old(shared)@.has_place(),
    {
        proof {
            law_call_counts(shared@, Cmd::Remove(*id), *id);
        }
        shared.announce(id);
        let sent: bool = self.send(shared, Cmd::Remove(copy_id(id)));
        shared.settle_remove(id, sent)
    }

    /// Gracefully shut down the wheel.  Pending callbacks still fire unless they were
    /// cancelled before.
    ///
    /// Returns `false` if the command channel is at capacity or closed.
    pub fn shutdown(&self, shared: &mut Shared<T>) -> (accepted: bool)
        requires
            old(shared).wf(),
            self.line() == old(shared)@.line,
        ensures
            final(shared).wf(),
            final(shared)@ == old(shared)@.called(Cmd::Shutdown, accepted),
            accepted ==> final(shared)@.sent == old(shared)@.sent.push(Cmd::Shutdown),
            !accepted ==> final(shared)@.sent == old(shared)@.sent && final(shared)@.cancelled
                == old(shared)@.cancelled,
            accepted ==> old(shared)@.has_place(),
    {
        proof {
            law_shutdown_counts(shared@);
        }
        self.send(shared, Cmd::Shutdown)
    }

    /// Number of tasks currently active (not yet expired or removed).
    pub fn active_tasks(&self, shared: &Shared<T>) -> (count: usize)
        ensures
            count == shared@.metrics.active,
    {
        shared.metrics().active
    }

    /// Total `insert` + `reset` calls since the wheel started.
    pub fn inserted_total(&self, shared: &Shared<T>) -> (count: usize)
        ensures
            count == shared@.metrics.inserted,
            shared.wf() && bookings(shared@.sent) <= usize::MAX ==> count == bookings(shared@.sent),
    {
        shared.metrics().inserted
    }

    /// Total commands dropped because the channel was at capacity or closed.
    pub fn dropped_total(&self, shared: &Shared<T>) -> (count: usize)
        ensures
            count == shared@.metrics.dropped,
            shared.wf() && requests(shared@.returned) <= usize::MAX ==> count == requests(
                shared@.returned,
            ),
    {
        shared.metrics().dropped
    }

    /// Total callbacks that have fired successfully.
    pub fn expirations_total(&self, shared: &Shared<T>) -> (count: usize)
        ensures
            count == shared@.metrics.expirations,
    {
        shared.metrics().expirations
    }

    /// Total callbacks that panicked or otherwise terminated abnormally.
    pub fn abnormal_total(&self, shared: &Shared<T>) -> (count: usize)
        ensures
            count == shared@.metrics.abnormal,
    {
        shared.metrics().abnormal
    }

    /// Expired callbacks waiting to execute.
    pub fn pending_len(&self, shared: &Shared<T>) -> (count: usize)
        ensures
            count == shared@.metrics.pending,
    {
        shared.metrics().pending
    }
}

} // verus!
