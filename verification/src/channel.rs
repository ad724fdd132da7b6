//! The command channel.

use std::task::{Context, Poll};

use tokio::sync::mpsc;
use tokio::sync::mpsc::{Receiver, Sender};
use vstd::prelude::*;

use crate::command::Cmd;

verus! {

/// The sending half of a tokio channel.
#[verifier::external_type_specification]
#[verifier::external_body]
#[verifier::reject_recursive_types(T)]
pub struct ExSender<T>(Sender<T>);

/// The receiving half of a tokio channel.
#[verifier::external_type_specification]
#[verifier::external_body]
#[verifier::reject_recursive_types(T)]
pub struct ExReceiver<T>(Receiver<T>);

/// What a task that polls has with it: whom to wake.
#[verifier::external_type_specification]
#[verifier::external_body]
pub struct ExContext<'a>(Context<'a>);

/// Which channel it is, and how many commands it holds.
pub struct Line {
    pub key: int,
    pub capacity: nat,
}

/// The end of the channel that commands are sent from.
#[verifier::reject_recursive_types(T)]
pub struct CmdSender<T> {
    tx: Sender<Cmd<T>>,
    line: Ghost<Line>,
}

/// The end of the channel that commands are received from.
#[verifier::reject_recursive_types(T)]
pub struct CmdReceiver<T> {
    rx: Receiver<Cmd<T>>,
    line: Ghost<Line>,
}

/// The books of a channel: what it was offered and what was taken from it.
///
/// They exist in proofs only.  [`open_channel`] opens one set of books for each channel, there
/// are no copies, and whoever uses the channel has to have them at hand, so every use of the
/// channel is in them.
#[verifier::reject_recursive_types(T)]
pub struct Ledger<T> {
    line: Ghost<Line>,
    sent: Ghost<Seq<Cmd<T>>>,
    returned: Ghost<Seq<Cmd<T>>>,
    taken: Ghost<Seq<Cmd<T>>>,
}

impl<T> CmdSender<T> {
    /// The channel that it belongs to.
    pub closed spec fn line(&self) -> Line {
        self.line@
    }
}

impl<T> CmdReceiver<T> {
    /// The channel that it belongs to.
    pub closed spec fn line(&self) -> Line {
        self.line@
    }
}

impl<T> Ledger<T> {
    /// The channel that the books are of.
    pub closed spec fn line(&self) -> Line {
        self.line@
    }

    /// The commands that the channel has accepted, oldest first.
    pub closed spec fn sent(&self) -> Seq<Cmd<T>> {
        self.sent@
    }

    /// The commands that the channel was offered and gave back, oldest first.
    pub closed spec fn returned(&self) -> Seq<Cmd<T>> {
        self.returned@
    }

    /// The commands that have been taken from the channel, oldest first.
    pub closed spec fn taken(&self) -> Seq<Cmd<T>> {
        self.taken@
    }
}

/// `buffer` is a capacity that a tokio channel can have.
pub open spec fn channel_holds(buffer: int) -> bool {
    0 < buffer <= usize::MAX / 8
}

/// `tokio::sync::mpsc::channel`: the two ends of a new channel that holds `buffer` commands,
/// with its books, in which nothing is written.
///
/// It panics without room for a message, and for more messages than an eighth of what a
/// `usize` counts.
#[verifier::external_body]
pub(crate) fn open_channel<T>(buffer: usize) -> (channel: (CmdSender<T>, CmdReceiver<T>, Ledger<T>))
    requires
        channel_holds(buffer as int),
    ensures
        channel.0.line() == channel.2.line(),
        channel.1.line() == channel.2.line(),
        channel.2.line().capacity == buffer,
        channel.2.sent() == Seq::<Cmd<T>>::empty(),
        channel.2.returned() == Seq::<Cmd<T>>::empty(),
        channel.2.taken() == Seq::<Cmd<T>>::empty(),
{
    let (tx, rx) = mpsc::channel(buffer);
    let ghost line: Line = vstd::pervasive::arbitrary();
    (
        CmdSender { tx, line: Ghost(line) },
        CmdReceiver { rx, line: Ghost(line) },
        Ledger {
            line: Ghost(line),
            sent: Ghost(Seq::empty()),
            returned: Ghost(Seq::empty()),
            taken: Ghost(Seq::empty()),
        },
    )
}

/// `Sender::clone`: another sender to the same channel.
#[verifier::external_body]
pub(crate) fn clone_sender<T>(tx: &CmdSender<T>) -> (other: CmdSender<T>)
    ensures
        other.line() == tx.line(),
{
    CmdSender { tx: tx.tx.clone(), line: Ghost(tx.line@) }
}

/// `Sender::try_send`: the channel is offered `cmd`, and takes it or gives it back.
///
/// It takes it only if it holds less than its capacity.  It gives it back when it is full or
/// its receiver is gone; whether the receiver is gone is up to the task that has it, so
/// nothing is claimed of when the channel takes the command.
#[verifier::external_body]
#[allow(unused_variables)]
pub(crate) fn offer<T>(tx: &CmdSender<T>, ledger: &mut Ledger<T>, cmd: Cmd<T>) -> (taken: bool)
    requires
        tx.line() == old(ledger).line(),
    ensures
        final(ledger).line() == old(ledger).line(),
        final(ledger).taken() == old(ledger).taken(),
        final(ledger).sent() == if taken {
            old(ledger).sent().push(cmd)
        } else {
            old(ledger).sent()
        },
        final(ledger).returned() == if taken {
            old(ledger).returned()
        } else {
            old(ledger).returned().push(cmd)
        },
        taken ==> final(ledger).sent().len() - final(ledger).taken().len()
            <= final(ledger).line().capacity,
{
    tx.tx.try_send(cmd).is_ok()
}

/// The oldest command that a channel has accepted and that has not been taken.
pub open spec fn oldest<T>(sent: Seq<Cmd<T>>, taken: Seq<Cmd<T>>) -> Option<Cmd<T>> {
    if taken.len() < sent.len() {
        Some(sent[taken.len() as int])
    } else {
        None
    }
}

/// `taken` with `cmd`, if there is one.
pub open spec fn joined<T>(taken: Seq<Cmd<T>>, cmd: Option<Cmd<T>>) -> Seq<Cmd<T>> {
    match cmd {
        Some(cmd) => taken.push(cmd),
        None => taken,
    }
}

/// `Receiver::try_recv`: takes the oldest command that is in the channel, or none if it is
/// empty.
#[verifier::external_body]
#[allow(unused_variables)]
pub(crate) fn next_command<T>(rx: &mut CmdReceiver<T>, ledger: &mut Ledger<T>) -> (cmd: Option<
    Cmd<T>,
>)
    requires
        old(rx).line() == old(ledger).line(),
    ensures
        cmd == oldest(old(ledger).sent(), old(ledger).taken()),
        final(rx).line() == old(rx).line(),
        final(ledger).line() == old(ledger).line(),
        final(ledger).sent() == old(ledger).sent(),
        final(ledger).returned() == old(ledger).returned(),
        final(ledger).taken() == joined(old(ledger).taken(), cmd),
{
    rx.rx.try_recv().ok()
}

/// What comes of listening to a channel.
pub enum Heard<T> {
    /// The oldest command in the channel.
    Command(Cmd<T>),
    /// The channel is empty, and no handle is left that could send anything.
    Closed,
    /// Nothing for now; the listening task will be woken.
    Nothing,
}

/// `Receiver::poll_recv`: takes the oldest command that is in the channel, or finds the
/// channel empty and closed, or has the task of `cx` woken later.
///
/// It may put the task off although there is a command, so nothing is claimed of when it does.
#[verifier::external_body]
#[allow(unused_variables)]
pub(crate) fn listen<T>(
    rx: &mut CmdReceiver<T>,
    ledger: &mut Ledger<T>,
    cx: &mut Context<'_>,
) -> (heard: Heard<T>)
    requires
        old(rx).line() == old(ledger).line(),
    ensures
        match heard {
            Heard::Command(cmd) => oldest(old(ledger).sent(), old(ledger).taken()) == Some(cmd)
                && final(ledger).taken() == old(ledger).taken().push(cmd),
            Heard::Closed => oldest(old(ledger).sent(), old(ledger).taken()) is None
                && final(ledger).taken() == old(ledger).taken(),
            Heard::Nothing => final(ledger).taken() == old(ledger).taken(),
        },
        final(rx).line() == old(rx).line(),
        final(ledger).line() == old(ledger).line(),
        final(ledger).sent() == old(ledger).sent(),
        final(ledger).returned() == old(ledger).returned(),
{
    match rx.rx.poll_recv(cx) {
        Poll::Ready(Some(cmd)) => Heard::Command(cmd),
        Poll::Ready(None) => Heard::Closed,
        Poll::Pending => Heard::Nothing,
    }
}

} // verus!
