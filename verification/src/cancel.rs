//! Cancellation markers: how many commands for an id are on their way to the worker.

use std::collections::HashMap;
use std::hash::Hash;

use vstd::prelude::*;

use crate::ids::{copy_id, lawful_id};

verus! {

/// The number of cancellation markers of `id`.
pub open spec fn marks<T>(cancelled: Map<T, usize>, id: T) -> int {
    if cancelled.contains_key(id) {
        cancelled[id] as int
    } else {
        0
    }
}

/// No id is listed without a marker.
pub open spec fn trimmed<T>(cancelled: Map<T, usize>) -> bool {
    forall|id: T| #[trigger] cancelled.contains_key(id) ==> cancelled[id] > 0
}

/// One more marker of `id`.
pub open spec fn marked<T>(cancelled: Map<T, usize>, id: T) -> Map<T, usize> {
    cancelled.insert(id, (marks(cancelled, id) + 1) as usize)
}

/// One marker of `id` less, if there is one.
pub open spec fn unmarked<T>(cancelled: Map<T, usize>, id: T) -> Map<T, usize> {
    if marks(cancelled, id) > 1 {
        cancelled.insert(id, (marks(cancelled, id) - 1) as usize)
    } else {
        cancelled.remove(id)
    }
}

/// The number of cancellation markers of `id`.
pub fn cancel_count<T: Eq + Hash + Clone>(map: &HashMap<T, usize>, id: &T) -> (count: usize)
    requires
        lawful_id::<T>(),
    ensures
        count == marks(map@, *id),
{
    match map.get(id) {
        Some(count) => *count,
        None => 0,
    }
}

/// Register one more cancellation marker of `id`.
pub fn cancel_increment<T: Eq + Hash + Clone>(map: &mut HashMap<T, usize>, id: &T)
    requires
        lawful_id::<T>(),
        marks(old(map)@, *id) < usize::MAX,
    ensures
        final(map)@ == marked(old(map)@, *id),
{
    let count: usize = cancel_count(map, id);
    map.insert(copy_id(id), count + 1);
}

/// Take back one cancellation marker of `id`; an id without markers is no longer listed.
pub fn cancel_decrement<T: Eq + Hash + Clone>(map: &mut HashMap<T, usize>, id: &T)
    requires
        lawful_id::<T>(),
    ensures
        final(map)@ == unmarked(old(map)@, *id),
{
    let count: usize = cancel_count(map, id);
    if count > 1 {
        map.insert(copy_id(id), count - 1);
    } else {
        map.remove(id);
    }
}

/// Taking back a marker undoes registering it, and neither touches another id.
pub proof fn law_unmark_undoes_mark<T>(cancelled: Map<T, usize>, id: T)
    requires
        trimmed(cancelled),
        marks(cancelled, id) < usize::MAX,
    ensures
        unmarked(marked(cancelled, id), id) == cancelled,
        marks(marked(cancelled, id), id) == marks(cancelled, id) + 1,
        marks(unmarked(cancelled, id), id) == if marks(cancelled, id) > 0 {
            marks(cancelled, id) - 1
        } else {
            0
        },
        trimmed(marked(cancelled, id)),
        trimmed(unmarked(cancelled, id)),
        forall|other: T|
            other != id ==> #[trigger] marks(marked(cancelled, id), other) == marks(
                cancelled,
                other,
            ),
        forall|other: T|
            other != id ==> #[trigger] marks(unmarked(cancelled, id), other) == marks(
                cancelled,
                other,
            ),
{
    assert(unmarked(marked(cancelled, id), id) =~= cancelled);
}

} // verus!
