//! What the wheel asks of a task id.

use std::hash::Hash;

use vstd::prelude::*;
use vstd::std_specs::cmp::PartialEqSpec;
use vstd::std_specs::hash::obeys_key_model;

verus! {

/// An id type whose `Eq`, `Hash` and `Clone` belong together: it can key a hash map, `==`
/// decides identity, and a clone is the id it was made from.
pub open spec fn lawful_id<T: Eq + Hash + Clone>() -> bool {
    &&& obeys_key_model::<T>()
    &&& T::obeys_eq_spec()
    &&& forall|a: T, b: T| #[trigger] a.eq_spec(&b) <==> a == b
    &&& forall|a: T, b: T| #[trigger] cloned(a, b) ==> a == b
}

/// A copy of `id`.
pub(crate) fn copy_id<T: Eq + Hash + Clone>(id: &T) -> (copy: T)
    requires
        lawful_id::<T>(),
    ensures
        copy == *id,
{
    let copy = id.clone();
    assert(cloned(*id, copy));
    copy
}

/// Whether `a` and `b` are the same id.
pub(crate) fn same_id<T: Eq + Hash + Clone>(a: &T, b: &T) -> (same: bool)
    requires
        lawful_id::<T>(),
    ensures
        same == (*a == *b),
{
    *a == *b
}

} // verus!
