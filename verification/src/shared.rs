//! What handles and worker share.

use std::collections::HashMap;
use std::hash::Hash;
use std::task::Context;

use vstd::prelude::*;

use crate::cancel::{
    cancel_count, cancel_decrement, cancel_increment, marked, marks, trimmed, unmarked,
};
use crate::channel::{
    joined, listen, next_command, offer, oldest, CmdReceiver, CmdSender, Heard, Ledger, Line,
};
use crate::command::{bookings, requests, Cmd};
use crate::ids::lawful_id;
use crate::metrics::Metrics;

verus! {

/// What handles and worker share: the statistics, the cancellation markers, and the books of
/// the channel between them.
#[verifier::reject_recursive_types(T)]
pub struct Shared<T> {
    metrics: Metrics,
    cancelled: HashMap<T, usize>,
    ledger: Ledger<T>,
    received: Ghost<Seq<Cmd<T>>>,
}

/// The contents of [`Shared`].
#[verifier::ext_equal]
#[verifier::reject_recursive_types(T)]
pub struct SharedModel<T> {
    /// Runtime statistics.
    pub metrics: Metrics,
    /// The number of cancellation markers of each id.
    pub cancelled: Map<T, usize>,
    /// The channel between handles and worker.
    pub line: Line,
    /// The commands that the channel has accepted, oldest first.
    pub sent: Seq<Cmd<T>>,
    /// The commands that the channel was offered and gave back, oldest first.
    pub returned: Seq<Cmd<T>>,
    /// The commands that have been taken from the channel, oldest first.
    pub taken: Seq<Cmd<T>>,
    /// The commands that the worker has carried out, oldest first.
    pub received: Seq<Cmd<T>>,
}

impl<T> View for Shared<T> {
    type V = SharedModel<T>;

    closed spec fn view(&self) -> SharedModel<T> {
        SharedModel {
            metrics: self.metrics,
            cancelled: self.cancelled@,
            line: self.ledger.line(),
            sent: self.ledger.sent(),
            returned: self.ledger.returned(),
            taken: self.ledger.taken(),
            received: self.received@,
        }
    }
}

/// A counter one further; it starts again at zero after the largest number.
pub open spec fn bumped(counter: usize) -> usize {
    if counter == usize::MAX {
        0
    } else {
        (counter + 1) as usize
    }
}

impl<T> SharedModel<T> {
    /// Nothing has happened yet on the channel `line`.
    pub open spec fn fresh(line: Line) -> Self {
        SharedModel {
            metrics: Metrics {
                active: 0,
                inserted: 0,
                dropped: 0,
                expirations: 0,
                abnormal: 0,
                pending: 0,
            },
            cancelled: Map::empty(),
            line,
            sent: Seq::empty(),
            returned: Seq::empty(),
            taken: Seq::empty(),
            received: Seq::empty(),
        }
    }

    /// The count of insert and reset calls is that of such commands which the channel
    /// accepted, and the count of dropped commands is that of insert, reset and remove
    /// commands which it gave back, as long as a `usize` holds them.
    pub open spec fn tallied(self) -> bool {
        &&& bookings(self.sent) <= usize::MAX ==> self.metrics.inserted == bookings(self.sent)
        &&& requests(self.returned) <= usize::MAX ==> self.metrics.dropped == requests(
            self.returned,
        )
    }

    /// What was taken from the channel are the oldest commands that it accepted, and it never
    /// held more than its capacity.
    pub open spec fn in_bounds(self) -> bool {
        &&& self.taken.is_prefix_of(self.sent)
        &&& self.sent.len() - self.taken.len() <= self.line.capacity
    }

    /// No id is listed without a cancellation marker, the counts are right, and the channel
    /// keeps to its capacity and to the order of the commands.
    pub open spec fn wf(self) -> bool {
        &&& trimmed(self.cancelled)
        &&& self.tallied()
        &&& self.in_bounds()
    }

    /// `id` has one more cancellation marker.
    pub open spec fn announced(self, id: T) -> Self {
        SharedModel { cancelled: marked(self.cancelled, id), ..self }
    }

    /// `id` has one cancellation marker less.
    pub open spec fn acknowledged(self, id: T) -> Self {
        SharedModel { cancelled: unmarked(self.cancelled, id), ..self }
    }

    /// The channel has accepted `cmd`.
    pub open spec fn logged(self, cmd: Cmd<T>) -> Self {
        SharedModel { sent: self.sent.push(cmd), ..self }
    }

    /// The channel has given back `cmd`.
    pub open spec fn bounced(self, cmd: Cmd<T>) -> Self {
        SharedModel { returned: self.returned.push(cmd), ..self }
    }

    /// One more task has been inserted or reset.
    pub open spec fn counted(self) -> Self {
        SharedModel {
            metrics: Metrics { inserted: bumped(self.metrics.inserted), ..self.metrics },
            ..self
        }
    }

    /// One more command has been dropped.
    pub open spec fn refused(self) -> Self {
        SharedModel {
            metrics: Metrics { dropped: bumped(self.metrics.dropped), ..self.metrics },
            ..self
        }
    }

    /// A callback has returned or panicked.
    pub open spec fn fired(self, returned: bool) -> Self {
        SharedModel {
            metrics: if returned {
                Metrics { expirations: bumped(self.metrics.expirations), ..self.metrics }
            } else {
                Metrics { abnormal: bumped(self.metrics.abnormal), ..self.metrics }
            },
            ..self
        }
    }

    /// A handle has been asked for `cmd`, and the channel took it or gave it back.
    pub open spec fn called(self, cmd: Cmd<T>, accepted: bool) -> Self {
        match cmd {
            Cmd::Insert(id, _) | Cmd::Reset(id, _) => if accepted {
                self.announced(id).logged(cmd).counted()
            } else {
                self.bounced(cmd).refused()
            },
            Cmd::Remove(id) => if accepted {
                self.announced(id).logged(cmd)
            } else {
                self.bounced(cmd).refused()
            },
            Cmd::Shutdown => if accepted {
                self.logged(cmd)
            } else {
                self.bounced(cmd)
            },
        }
    }

    /// The number of tracked tasks is published.
    pub open spec fn tracking(self, active: nat) -> Self {
        SharedModel { metrics: Metrics { active: active as usize, ..self.metrics }, ..self }
    }

    /// The number of pending callbacks is published.
    pub open spec fn awaiting(self, pending: nat) -> Self {
        SharedModel { metrics: Metrics { pending: pending as usize, ..self.metrics }, ..self }
    }

    /// The channel holds less than its capacity.
    pub open spec fn has_place(self) -> bool {
        self.sent.len() - self.taken.len() < self.line.capacity
    }

    /// The oldest command that is in the channel.
    pub open spec fn oldest(self) -> Option<Cmd<T>> {
        oldest(self.sent, self.taken)
    }

    /// The oldest command that is in the channel, if there is one, has been taken.
    pub open spec fn relieved(self) -> Self {
        SharedModel { taken: joined(self.taken, self.oldest()), ..self }
    }

    /// The worker has carried out `cmd`.
    pub open spec fn heard(self, cmd: Cmd<T>) -> Self {
        SharedModel { received: self.received.push(cmd), ..self }
    }
}

impl<T: Eq + Hash + Clone> Shared<T> {
    /// The contents are in order.
    pub open spec fn wf(&self) -> bool {
        self@.wf()
    }

    /// Nothing has happened yet on the channel with these books.
    pub fn new(ledger: Ledger<T>) -> (shared: Self)
        requires
            lawful_id::<T>(),
            ledger.sent() == Seq::<Cmd<T>>::empty(),
            ledger.returned() == Seq::<Cmd<T>>::empty(),
            ledger.taken() == Seq::<Cmd<T>>::empty(),
        ensures
            shared.wf(),
            shared@ == SharedModel::<T>::fresh(ledger.line()),
    {
        let shared = Shared {
            metrics: Metrics::default(),
            cancelled: HashMap::new(),
            ledger,
            received: Ghost(Seq::empty()),
        };
        proof {
            reveal_with_fuel(Seq::filter, 1);
        }
        assert(shared@ =~= SharedModel::<T>::fresh(ledger.line()));
        shared
    }

    /// Runtime statistics.
    pub fn metrics(&self) -> (metrics: Metrics)
        ensures
            metrics == self@.metrics,
    {
        self.metrics
    }

    /// The number of cancellation markers of `id`.
    pub fn marker_count(&self, id: &T) -> (count: usize)
        requires
            lawful_id::<T>(),
        ensures
            count == marks(self@.cancelled, *id),
    {
        cancel_count(&self.cancelled, id)
    }

    /// Whether `id` can have one more cancellation marker.
    pub fn has_room(&self, id: &T) -> (room: bool)
        requires
            lawful_id::<T>(),
        ensures
            room == (marks(self@.cancelled, *id) < usize::MAX),
    {
        self.marker_count(id) < usize::MAX
    }

    /// Register a cancellation marker of `id` before a command about it is sent.
    pub fn announce(&mut self, id: &T)
        requires
            lawful_id::<T>(),
            marks(old(self)@.cancelled, *id) < usize::MAX,
        ensures
            final(self)@ == old(self)@.announced(*id),
    {
        cancel_increment(&mut self.cancelled, id);
    }

    /// Offer `cmd` to the channel.
    ///
    /// Returns whether the channel took it, which it does only if it has room for it.
    pub(crate) fn offer(&mut self, tx: &CmdSender<T>, cmd: Cmd<T>) -> (sent: bool)
        requires
            tx.line() == old(self)@.line,
        ensures
            final(self)@ == if sent {
                old(self)@.logged(cmd)
            } else {
                old(self)@.bounced(cmd)
            },
            sent ==> old(self)@.has_place(),
    {
        offer(tx, &mut self.ledger, cmd)
    }

    /// Take the oldest command that is in the channel.
    pub fn take_command(&mut self, rx: &mut CmdReceiver<T>) -> (cmd: Option<Cmd<T>>)
        requires
            old(rx).line() == old(self)@.line,
        ensures
            final(rx).line() == old(rx).line(),
            cmd == old(self)@.oldest(),
            final(self)@ == old(self)@.relieved(),
            old(self).wf() ==> final(self).wf(),
    {
        next_command(rx, &mut self.ledger)
    }

    /// Take the oldest command that is in the channel, or find out that there will be none, or
    /// have the task of `cx` woken when there may be one.
    pub fn listen(&mut self, rx: &mut CmdReceiver<T>, cx: &mut Context<'_>) -> (heard: Heard<T>)
        requires
            old(rx).line() == old(self)@.line,
        ensures
            final(rx).line() == old(rx).line(),
            match heard {
                Heard::Command(cmd) => old(self)@.oldest() == Some(cmd) && final(self)@ == old(
                    self,
                )@.relieved(),
                Heard::Closed => old(self)@.oldest() is None && final(self)@ == old(self)@,
                Heard::Nothing => final(self)@ == old(self)@,
            },
            old(self).wf() ==> final(self).wf(),
    {
        listen(rx, &mut self.ledger, cx)
    }

    /// Settle an insert or reset of `id` that was announced: `sent` says whether the channel
    /// took the command.
    pub fn settle_schedule(&mut self, id: &T, sent: bool) -> (accepted: bool)
        requires
            lawful_id::<T>(),
        ensures
            accepted == sent,
            final(self)@ == if sent {
                old(self)@.counted()
            } else {
                old(self)@.acknowledged(*id).refused()
            },
    {
        if sent {
            self.metrics.inserted = self.metrics.inserted.wrapping_add(1);
        } else {
            cancel_decrement(&mut self.cancelled, id);
            self.metrics.dropped = self.metrics.dropped.wrapping_add(1);
        }
        sent
    }

    /// Settle a remove of `id` that was announced: `sent` says whether the channel took the
    /// command.
    pub fn settle_remove(&mut self, id: &T, sent: bool) -> (accepted: bool)
        requires
            lawful_id::<T>(),
        ensures
            accepted == sent,
            final(self)@ == if sent {
                old(self)@
            } else {
                old(self)@.acknowledged(*id).refused()
            },
    {
        if !sent {
            cancel_decrement(&mut self.cancelled, id);
            self.metrics.dropped = self.metrics.dropped.wrapping_add(1);
        }
        sent
    }

    /// Take back a cancellation marker of `id`.
    pub(crate) fn acknowledge(&mut self, id: &T)
        requires
            lawful_id::<T>(),
        ensures
            final(self)@ == old(self)@.acknowledged(*id),
    {
        cancel_decrement(&mut self.cancelled, id);
    }

    /// Take note that the worker carries out a command.
    pub(crate) fn hear(&mut self, cmd: Ghost<Cmd<T>>)
        ensures
            final(self)@ == old(self)@.heard(cmd@),
    {
        self.received = Ghost(self.received@.push(cmd@));
    }

    /// Publish the number of tracked tasks.
    pub(crate) fn track(&mut self, active: usize)
        ensures
            final(self)@ == old(self)@.tracking(active as nat),
    {
        self.metrics.active = active;
    }

    /// Publish the number of pending callbacks.
    pub(crate) fn expect(&mut self, pending: usize)
        ensures
            final(self)@ == old(self)@.awaiting(pending as nat),
    {
        self.metrics.pending = pending;
    }

    /// Count a callback that has returned or panicked.
    pub(crate) fn count_fired(&mut self, returned: bool)
        ensures
            final(self)@ == old(self)@.fired(returned),
    {
        if returned {
            self.metrics.expirations = self.metrics.expirations.wrapping_add(1);
        } else {
            self.metrics.abnormal = self.metrics.abnormal.wrapping_add(1);
        }
    }
}

} // verus!
