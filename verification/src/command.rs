//! The commands that travel from a handle to the worker.

use std::time::Duration;

use vstd::prelude::*;

verus! {

/// What a handle asks of the worker.
pub enum Cmd<T> {
    /// Schedule a one-shot task.
    Insert(T, Duration),
    /// Refresh (or create) a task with a new timeout.
    Reset(T, Duration),
    /// Cancel a task.
    Remove(T),
    /// Stop, and fire what is pending.
    Shutdown,
}

impl<T> Cmd<T> {
    /// `id` is the task that the command is about.
    pub open spec fn concerns(self, id: T) -> bool {
        match self {
            Cmd::Insert(subject, _) | Cmd::Reset(subject, _) | Cmd::Remove(subject) => subject
                == id,
            Cmd::Shutdown => false,
        }
    }
}

/// `cmd` inserts or resets a task.
pub open spec fn is_booking<T>(cmd: Cmd<T>) -> bool {
    cmd is Insert || cmd is Reset
}

/// How many of `commands` insert or reset a task.
pub open spec fn bookings<T>(commands: Seq<Cmd<T>>) -> nat {
    commands.filter(|cmd: Cmd<T>| is_booking(cmd)).len()
}

/// How many of `commands` insert, reset or remove a task.
pub open spec fn requests<T>(commands: Seq<Cmd<T>>) -> nat {
    commands.filter(|cmd: Cmd<T>| !(cmd is Shutdown)).len()
}

/// A command that comes last counts once.
pub(crate) proof fn lemma_counts_push<T>(commands: Seq<Cmd<T>>, cmd: Cmd<T>)
    ensures
        bookings(commands.push(cmd)) == bookings(commands) + if is_booking(cmd) {
            1nat
        } else {
            0
        },
        requests(commands.push(cmd)) == requests(commands) + if cmd is Shutdown {
            0nat
        } else {
            1
        },
{
    commands.lemma_filter_push(cmd, |cmd: Cmd<T>| is_booking(cmd));
    commands.lemma_filter_push(cmd, |cmd: Cmd<T>| !(cmd is Shutdown));
}

/// How many of `commands` are about `id`.
pub open spec fn mentions<T>(commands: Seq<Cmd<T>>, id: T) -> nat
    decreases commands.len(),
{
    if commands.len() == 0 {
        0
    } else {
        mentions(commands.drop_last(), id) + if commands.last().concerns(id) {
            1nat
        } else {
            0
        }
    }
}

/// A command that comes last counts once.
pub(crate) proof fn lemma_mentions_push<T>(commands: Seq<Cmd<T>>, cmd: Cmd<T>, id: T)
    ensures
        mentions(commands.push(cmd), id) == mentions(commands, id) + if cmd.concerns(id) {
            1nat
        } else {
            0
        },
{
    assert(commands.push(cmd).drop_last() =~= commands);
}

} // verus!
