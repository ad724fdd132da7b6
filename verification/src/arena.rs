//! The arena of task entries, and where each of its slots is.

use vstd::prelude::*;

use crate::config::LV0_SLOTS;
use crate::laws::lemma_filter;
use crate::model::{due_ids, level_below, level_slot, Timer};

verus! {

/// One slot of the arena.
pub struct TaskEntry<T> {
    pub id: T,
    pub expire_tick: u64,
    pub generation: u64,
}

/// Where an arena slot is: on the free list, in the hands of an operation, or in a bucket.
pub enum Place {
    Free,
    Held,
    Bucket(int, int),
}

/// The arena indices in each bucket of each level.
pub type Rings = Seq<Seq<Seq<usize>>>;

/// `rings` is three levels of 64 buckets.
pub open spec fn rings_shaped(rings: Rings) -> bool {
    &&& rings.len() == 3
    &&& forall|l: int| 0 <= l < 3 ==> (#[trigger] rings[l]).len() == LV0_SLOTS
}

/// Three levels of 64 empty buckets.
pub open spec fn no_rings() -> Rings {
    Seq::new(3, |l: int| Seq::new(LV0_SLOTS as nat, |s: int| Seq::<usize>::empty()))
}

/// `list` holds exactly the arena slots whose place is `at`, each once.
pub open spec fn lists(place: Seq<Place>, list: Seq<usize>, at: Place) -> bool {
    &&& list.no_duplicates()
    &&& forall|k: int|
        0 <= k < list.len() ==> (#[trigger] list[k]) < place.len() && place[list[k] as int] == at
    &&& forall|i: usize|
        i < place.len() && #[trigger] place[i as int] == at ==> list.contains(i)
}

/// Every arena slot is in exactly one place: the free list, a bucket, or `held`.
pub open spec fn accounted(
    place: Seq<Place>,
    rings: Rings,
    free: Seq<usize>,
    held: Set<usize>,
) -> bool {
    &&& rings_shaped(rings)
    &&& place.len() <= usize::MAX
    &&& lists(place, free, Place::Free)
    &&& forall|i: usize|
        #![trigger held.contains(i)]
        #![trigger place[i as int]]
        held.contains(i) <==> i < place.len() && place[i as int] == Place::Held
    &&& forall|l: int, s: int|
        0 <= l < 3 && 0 <= s < LV0_SLOTS ==> lists(
            place,
            #[trigger] rings[l][s],
            Place::Bucket(l, s),
        )
    &&& forall|i: int|
        0 <= i < place.len() ==> match #[trigger] place[i] {
            Place::Bucket(l, s) => 0 <= l < 3 && 0 <= s < LV0_SLOTS,
            _ => true,
        }
}

/// `i` joins bucket `s` of level `l`.
pub open spec fn filed(rings: Rings, l: int, s: int, i: usize) -> Rings {
    rings.update(l, rings[l].update(s, rings[l][s].push(i)))
}

/// Bucket `s` of level `l` is emptied.
pub open spec fn drained(rings: Rings, l: int, s: int) -> Rings {
    rings.update(l, rings[l].update(s, Seq::empty()))
}

proof fn lemma_lists_other(
    place: Seq<Place>,
    list: Seq<usize>,
    at: Place,
    i: usize,
    to: Place,
)
    requires
        lists(place, list, at),
        i < place.len(),
        place[i as int] != at,
        to != at,
    ensures
        lists(place.update(i as int, to), list, at),
{
}

proof fn lemma_lists_joins(place: Seq<Place>, list: Seq<usize>, at: Place, i: usize)
    requires
        lists(place, list, at),
        i < place.len(),
        place[i as int] != at,
    ensures
        lists(place.update(i as int, at), list.push(i), at),
{
    let after = place.update(i as int, at);
    let more = list.push(i);
    assert forall|j: usize| j < after.len() && #[trigger] after[j as int] == at implies more.contains(
        j,
    ) by {
        if j == i {
            assert(more[list.len() as int] == i);
        } else {
            assert(place[j as int] == at);
            let k = choose|k: int| 0 <= k < list.len() && list[k] == j;
            assert(more[k] == j);
        }
    }
}

proof fn lemma_lists_leaves(place: Seq<Place>, list: Seq<usize>, at: Place, k: int, to: Place)
    requires
        lists(place, list, at),
        0 <= k < list.len(),
        to != at,
    ensures
        lists(place.update(list[k] as int, to), list.remove(k), at),
{
    let i = list[k];
    let after = place.update(i as int, to);
    let less = list.remove(k);
    assert forall|j: usize| j < after.len() && #[trigger] after[j as int] == at implies less.contains(
        j,
    ) by {
        assert(place[j as int] == at);
        let m = choose|m: int| 0 <= m < list.len() && list[m] == j;
        if m < k {
            assert(less[m] == j);
        } else {
            assert(less[m - 1] == j);
        }
    }
}

/// A held slot goes to the free list.
pub(crate) proof fn lemma_release(
    place: Seq<Place>,
    rings: Rings,
    free: Seq<usize>,
    held: Set<usize>,
    i: usize,
)
    requires
        accounted(place, rings, free, held),
        held.contains(i),
    ensures
        accounted(place.update(i as int, Place::Free), rings, free.push(i), held.remove(i)),
{
    lemma_lists_joins(place, free, Place::Free, i);
    let after = place.update(i as int, Place::Free);
    assert forall|l: int, s: int| 0 <= l < 3 && 0 <= s < LV0_SLOTS implies lists(
        after,
        #[trigger] rings[l][s],
        Place::Bucket(l, s),
    ) by {
        lemma_lists_other(place, rings[l][s], Place::Bucket(l, s), i, Place::Free);
    }
}

/// A held slot goes into a bucket.
pub(crate) proof fn lemma_file(
    place: Seq<Place>,
    rings: Rings,
    free: Seq<usize>,
    held: Set<usize>,
    i: usize,
    l: int,
    s: int,
)
    requires
        accounted(place, rings, free, held),
        held.contains(i),
        0 <= l < 3,
        0 <= s < LV0_SLOTS,
    ensures
        accounted(
            place.update(i as int, Place::Bucket(l, s)),
            filed(rings, l, s, i),
            free,
            held.remove(i),
        ),
{
    let at = Place::Bucket(l, s);
    lemma_lists_other(place, free, Place::Free, i, at);
    let after = place.update(i as int, at);
    let more = filed(rings, l, s, i);
    assert forall|l2: int, s2: int| 0 <= l2 < 3 && 0 <= s2 < LV0_SLOTS implies lists(
        after,
        #[trigger] more[l2][s2],
        Place::Bucket(l2, s2),
    ) by {
        assert(lists(place, rings[l2][s2], Place::Bucket(l2, s2)));
        if l2 == l && s2 == s {
            lemma_lists_joins(place, rings[l][s], at, i);
        } else {
            lemma_lists_other(place, rings[l2][s2], Place::Bucket(l2, s2), i, at);
        }
    }
}

/// The places after bucket `s` of level `l` was drained.
pub open spec fn taken(place: Seq<Place>, l: int, s: int) -> Seq<Place> {
    place.map_values(
        |p: Place|
            if p == Place::Bucket(l, s) {
                Place::Held
            } else {
                p
            },
    )
}

/// A bucket is drained into empty hands.
pub(crate) proof fn lemma_take(place: Seq<Place>, rings: Rings, free: Seq<usize>, l: int, s: int)
    requires
        accounted(place, rings, free, Set::empty()),
        0 <= l < 3,
        0 <= s < LV0_SLOTS,
    ensures
        rings[l][s].no_duplicates(),
        accounted(taken(place, l, s), drained(rings, l, s), free, rings[l][s].to_set()),
{
    let after = taken(place, l, s);
    let less = drained(rings, l, s);
    let held = rings[l][s];
    assert(lists(place, held, Place::Bucket(l, s)));
    assert forall|i: usize| i < place.len() implies #[trigger] place[i as int] != Place::Held by {
        assert(!Set::<usize>::empty().contains(i));
    }
    assert forall|i: usize|
        #![trigger held.to_set().contains(i)]
        #![trigger after[i as int]]
        held.to_set().contains(i) <==> i < after.len() && after[i as int] == Place::Held by {
        if held.contains(i) {
            let k = choose|k: int| 0 <= k < held.len() && held[k] == i;
            assert(place[held[k] as int] == Place::Bucket(l, s));
        }
        if i < after.len() && after[i as int] == Place::Held {
            assert(place[i as int] == Place::Bucket(l, s));
        }
    }
    assert(lists(after, free, Place::Free)) by {
        assert forall|i: usize| i < after.len() && #[trigger] after[i as int]
            == Place::Free implies free.contains(i) by {
            assert(place[i as int] == Place::Free);
        }
    }
    assert forall|l2: int, s2: int| 0 <= l2 < 3 && 0 <= s2 < LV0_SLOTS implies lists(
        after,
        #[trigger] less[l2][s2],
        Place::Bucket(l2, s2),
    ) by {
        let at = Place::Bucket(l2, s2);
        assert(lists(place, rings[l2][s2], at));
        assert forall|i: usize| i < after.len() && #[trigger] after[i as int]
            == at implies less[l2][s2].contains(i) by {
            assert(place[i as int] == at);
        }
    }
}

/// The last free slot is taken in hand.
pub(crate) proof fn lemma_reuse(
    place: Seq<Place>,
    rings: Rings,
    free: Seq<usize>,
    held: Set<usize>,
)
    requires
        accounted(place, rings, free, held),
        free.len() > 0,
    ensures
        accounted(
            place.update(free.last() as int, Place::Held),
            rings,
            free.drop_last(),
            held.insert(free.last()),
        ),
{
    let i = free.last();
    lemma_lists_leaves(place, free, Place::Free, free.len() - 1, Place::Held);
    assert(free.remove(free.len() - 1) =~= free.drop_last());
    let after = place.update(i as int, Place::Held);
    assert forall|l: int, s: int| 0 <= l < 3 && 0 <= s < LV0_SLOTS implies lists(
        after,
        #[trigger] rings[l][s],
        Place::Bucket(l, s),
    ) by {
        lemma_lists_other(place, rings[l][s], Place::Bucket(l, s), i, Place::Held);
    }
}

proof fn lemma_lists_grows(place: Seq<Place>, list: Seq<usize>, at: Place, other: Place)
    requires
        lists(place, list, at),
        at != other,
    ensures
        lists(place.push(other), list, at),
{
    let after = place.push(other);
    assert forall|j: usize| j < after.len() && #[trigger] after[j as int] == at implies list.contains(
        j,
    ) by {
        assert(place[j as int] == at);
    }
}

/// A new slot is made and taken in hand.
pub(crate) proof fn lemma_grow(place: Seq<Place>, rings: Rings, free: Seq<usize>, held: Set<usize>)
    requires
        accounted(place, rings, free, held),
        place.len() < usize::MAX,
    ensures
        accounted(place.push(Place::Held), rings, free, held.insert(place.len() as usize)),
{
    let n = place.len() as usize;
    let after = place.push(Place::Held);
    lemma_lists_grows(place, free, Place::Free, Place::Held);
    assert forall|i: usize|
        #![trigger held.insert(n).contains(i)]
        #![trigger after[i as int]]
        held.insert(n).contains(i) <==> i < after.len() && after[i as int] == Place::Held by {
        assert(held.contains(i) <==> i < place.len() && place[i as int] == Place::Held);
    }
    assert forall|l: int, s: int| 0 <= l < 3 && 0 <= s < LV0_SLOTS implies lists(
        after,
        #[trigger] rings[l][s],
        Place::Bucket(l, s),
    ) by {
        lemma_lists_grows(place, rings[l][s], Place::Bucket(l, s), Place::Held);
    }
}

/// The number of entries in the first `n` buckets, counted from the first bucket of the
/// lowest level.
pub open spec fn filed_upto(rings: Rings, n: nat) -> nat
    decreases n,
{
    if n == 0 {
        0
    } else {
        let b = n - 1;
        filed_upto(rings, b as nat) + rings[b / LV0_SLOTS as int][b % LV0_SLOTS as int].len()
    }
}

/// The number of entries in all buckets.
pub open spec fn filed_total(rings: Rings) -> nat {
    filed_upto(rings, (3 * LV0_SLOTS) as nat)
}

/// The slots on the free list and in the first `n` buckets, in a row.
spec fn roll(rings: Rings, free: Seq<usize>, n: nat) -> Seq<usize>
    decreases n,
{
    if n == 0 {
        free
    } else {
        let b = n - 1;
        roll(rings, free, b as nat) + rings[b / LV0_SLOTS as int][b % LV0_SLOTS as int]
    }
}

/// A slot on the roll of the first `n` buckets is free or in one of them.
spec fn enrolled(place: Seq<Place>, n: nat, i: usize) -> bool {
    i < place.len() && match place[i as int] {
        Place::Free => true,
        Place::Held => false,
        Place::Bucket(l, s) => l * LV0_SLOTS + s < n,
    }
}

/// The roll lists every enrolled slot once.
proof fn lemma_roll(
    place: Seq<Place>,
    rings: Rings,
    free: Seq<usize>,
    held: Set<usize>,
    n: nat,
)
    requires
        accounted(place, rings, free, held),
        n <= 3 * LV0_SLOTS,
    ensures
        roll(rings, free, n).no_duplicates(),
        roll(rings, free, n).len() == free.len() + filed_upto(rings, n),
        forall|i: usize| #[trigger] roll(rings, free, n).contains(i) <==> enrolled(place, n, i),
    decreases n,
{
    let all = roll(rings, free, n);
    if n == 0 {
        assert forall|i: usize| #[trigger] all.contains(i) <==> enrolled(place, n, i) by {
            if free.contains(i) {
                let k = choose|k: int| 0 <= k < free.len() && free[k] == i;
                assert(place[free[k] as int] == Place::Free);
            }
        }
    } else {
        let b = n - 1;
        let l = b / LV0_SLOTS as int;
        let s = b % LV0_SLOTS as int;
        let before = roll(rings, free, b as nat);
        let here = rings[l][s];
        lemma_roll(place, rings, free, held, b as nat);
        assert(l * LV0_SLOTS + s == b);
        assert(lists(place, here, Place::Bucket(l, s)));
        assert forall|i: usize| #[trigger] here.contains(i) <==> i < place.len() && place[i as int]
            == Place::Bucket(l, s) by {
            if here.contains(i) {
                let k = choose|k: int| 0 <= k < here.len() && here[k] == i;
                assert(place[here[k] as int] == Place::Bucket(l, s));
            }
        }
        assert forall|i: usize| #[trigger] all.contains(i) <==> enrolled(place, n, i) by {
            vstd::seq_lib::lemma_seq_concat_contains_all_elements(before, here, i);
            assert(before.contains(i) <==> enrolled(place, b as nat, i));
            if i < place.len() {
                match place[i as int] {
                    Place::Bucket(l2, s2) => {
                        if l2 * LV0_SLOTS + s2 == b {
                            assert(l2 == l && s2 == s);
                        }
                    },
                    _ => {},
                }
            }
        }
        assert forall|x: int, y: int| 0 <= x < before.len() && 0 <= y
            < here.len() implies before[x] != here[y] by {
            assert(before.contains(before[x]) && here.contains(here[y]));
        }
        vstd::seq_lib::lemma_no_dup_in_concat(before, here);
    }
}

/// Every slot is on the free list or in a bucket, so together these are as long as the arena.
pub(crate) proof fn lemma_space(place: Seq<Place>, rings: Rings, free: Seq<usize>)
    requires
        accounted(place, rings, free, Set::empty()),
    ensures
        place.len() == free.len() + filed_total(rings),
{
    let n = (3 * LV0_SLOTS) as nat;
    let all = roll(rings, free, n);
    lemma_roll(place, rings, free, Set::empty(), n);
    let ints = all.map_values(|i: usize| i as int);
    let range = vstd::set_lib::set_int_range(0, place.len() as int);
    assert forall|x: int| #[trigger] ints.to_set().contains(x) <==> range.contains(x) by {
        if ints.contains(x) {
            let k = choose|k: int| 0 <= k < ints.len() && ints[k] == x;
            assert(all.contains(all[k]));
        }
        if range.contains(x) {
            let i = x as usize;
            assert(!Set::<usize>::empty().contains(i));
            assert(place[i as int] != Place::Held);
            assert(enrolled(place, n, i));
            assert(all.contains(i));
            let k = choose|k: int| 0 <= k < all.len() && all[k] == i;
            assert(ints[k] == x);
        }
    }
    assert(ints.to_set() =~= range);
    ints.unique_seq_to_set();
    vstd::set_lib::lemma_int_range(0, place.len() as int);
}

/// Arena slot `i` is the one that its id is looked up to: the others that carry the same id
/// are stale copies.
pub open spec fn is_current<T>(arena: Seq<TaskEntry<T>>, index: Map<T, usize>, i: usize) -> bool {
    &&& i < arena.len()
    &&& index.contains_key(arena[i as int].id)
    &&& index[arena[i as int].id] == i
}

/// Arena slot `i` holds the current schedule of its id, and that is not due yet.
pub open spec fn is_waiting<T>(
    arena: Seq<TaskEntry<T>>,
    index: Map<T, usize>,
    now: int,
    i: usize,
) -> bool {
    is_current(arena, index, i) && arena[i as int].expire_tick > now
}

/// Arena slot `i` is no longer needed: it is a stale copy, or due.
pub open spec fn is_spent<T>(
    arena: Seq<TaskEntry<T>>,
    index: Map<T, usize>,
    now: int,
    i: usize,
) -> bool {
    i < arena.len() && !is_waiting(arena, index, now, i)
}

/// The waiting slots of `batch`, drained from `level`, join the buckets of the level below
/// that their expiry falls in, in order.
pub open spec fn trickled<T>(
    rings: Rings,
    arena: Seq<TaskEntry<T>>,
    index: Map<T, usize>,
    now: int,
    level: int,
    batch: Seq<usize>,
) -> Rings {
    let below = level_below(level);
    rings.update(
        below,
        rings[below].map(
            |s: int, bucket: Seq<usize>|
                bucket + batch.filter(
                    |i: usize|
                        is_waiting(arena, index, now, i) && level_slot(
                            below,
                            arena[i as int].expire_tick as int,
                        ) == s,
                ),
        ),
    )
}

/// An empty batch changes nothing.
pub(crate) proof fn lemma_trickled_none<T>(
    rings: Rings,
    arena: Seq<TaskEntry<T>>,
    index: Map<T, usize>,
    now: int,
    level: int,
)
    requires
        rings_shaped(rings),
        0 <= level < 3,
    ensures
        trickled(rings, arena, index, now, level, Seq::empty()) == rings,
{
    reveal_with_fuel(Seq::filter, 1);
    assert(trickled(rings, arena, index, now, level, Seq::empty()) =~~= rings);
}

/// A slot that joins a batch trickles last, if it is waiting.
pub(crate) proof fn lemma_trickled_push<T>(
    rings: Rings,
    arena: Seq<TaskEntry<T>>,
    index: Map<T, usize>,
    now: int,
    level: int,
    batch: Seq<usize>,
    i: usize,
)
    requires
        rings_shaped(rings),
        0 <= level < 3,
    ensures
        rings_shaped(trickled(rings, arena, index, now, level, batch)),
        trickled(rings, arena, index, now, level, batch.push(i)) == if is_waiting(
            arena,
            index,
            now,
            i,
        ) {
            let below = level_below(level);
            filed(
                trickled(rings, arena, index, now, level, batch),
                below,
                level_slot(below, arena[i as int].expire_tick as int),
                i,
            )
        } else {
            trickled(rings, arena, index, now, level, batch)
        },
{
    let below = level_below(level);
    let before = trickled(rings, arena, index, now, level, batch);
    let after = trickled(rings, arena, index, now, level, batch.push(i));
    let target = if is_waiting(arena, index, now, i) {
        filed(before, below, level_slot(below, arena[i as int].expire_tick as int), i)
    } else {
        before
    };
    assert forall|s: int| 0 <= s < LV0_SLOTS implies #[trigger] after[below][s]
        == target[below][s] by {
        let goes = |i: usize|
            is_waiting(arena, index, now, i) && level_slot(
                below,
                arena[i as int].expire_tick as int,
            ) == s;
        batch.lemma_filter_push(i, goes);
        assert(after[below][s] == rings[below][s] + batch.push(i).filter(goes));
        assert(before[below][s] == rings[below][s] + batch.filter(goes));
        assert(after[below][s] =~= target[below][s]);
    }
    assert(after[below] =~= target[below]);
    assert(after =~= target);
}

/// The timer that an arena entry stands for.
pub open spec fn timer_of<T>(entry: TaskEntry<T>) -> Timer<T> {
    Timer { id: entry.id, expire: entry.expire_tick as int }
}

/// The timers of a bucket, without its stale copies.
pub open spec fn timers<T>(
    arena: Seq<TaskEntry<T>>,
    index: Map<T, usize>,
    bucket: Seq<usize>,
) -> Seq<Timer<T>>
    decreases bucket.len(),
{
    if bucket.len() == 0 {
        Seq::empty()
    } else {
        let before = timers(arena, index, bucket.drop_last());
        if is_current(arena, index, bucket.last()) {
            before.push(timer_of(arena[bucket.last() as int]))
        } else {
            before
        }
    }
}

/// When nothing but the timers of `id` ceases to be current, a bucket loses just these.
pub(crate) proof fn lemma_timers_without<T>(
    arena: Seq<TaskEntry<T>>,
    index: Map<T, usize>,
    arena2: Seq<TaskEntry<T>>,
    index2: Map<T, usize>,
    bucket: Seq<usize>,
    id: T,
)
    requires
        forall|k: int|
            0 <= k < bucket.len() ==> {
                let i = #[trigger] bucket[k];
                &&& arena2[i as int] == arena[i as int]
                &&& is_current(arena2, index2, i) <==> is_current(arena, index, i)
                    && arena[i as int].id != id
            },
    ensures
        timers(arena2, index2, bucket) == timers(arena, index, bucket).filter(
            |t: Timer<T>| t.id != id,
        ),
    decreases bucket.len(),
{
    reveal_with_fuel(Seq::filter, 2);
    if bucket.len() > 0 {
        let init = bucket.drop_last();
        let i = bucket.last();
        assert(bucket[bucket.len() - 1] == i);
        assert forall|k: int| 0 <= k < init.len() implies {
            let i = #[trigger] init[k];
            &&& arena2[i as int] == arena[i as int]
            &&& is_current(arena2, index2, i) <==> is_current(arena, index, i)
                && arena[i as int].id != id
        } by {
            assert(bucket[k] == init[k]);
        }
        lemma_timers_without(arena, index, arena2, index2, init, id);
        let before = timers(arena, index, init);
        if is_current(arena, index, i) {
            assert(before.push(timer_of(arena[i as int])).drop_last() =~= before);
        }
    }
}

/// The timers of a bucket depend only on what its own slots hold.
pub(crate) proof fn lemma_timers_same<T>(
    arena: Seq<TaskEntry<T>>,
    index: Map<T, usize>,
    arena2: Seq<TaskEntry<T>>,
    index2: Map<T, usize>,
    bucket: Seq<usize>,
)
    requires
        forall|k: int|
            0 <= k < bucket.len() ==> {
                let i = #[trigger] bucket[k];
                &&& arena2[i as int] == arena[i as int]
                &&& is_current(arena2, index2, i) <==> is_current(arena, index, i)
            },
    ensures
        timers(arena2, index2, bucket) == timers(arena, index, bucket),
    decreases bucket.len(),
{
    if bucket.len() > 0 {
        let init = bucket.drop_last();
        assert(bucket[bucket.len() - 1] == bucket.last());
        assert forall|k: int| 0 <= k < init.len() implies {
            let i = #[trigger] init[k];
            &&& arena2[i as int] == arena[i as int]
            &&& is_current(arena2, index2, i) <==> is_current(arena, index, i)
        } by {
            assert(bucket[k] == init[k]);
        }
        lemma_timers_same(arena, index, arena2, index2, init);
    }
}

/// Every timer of a bucket comes from a current slot in it.
pub(crate) proof fn lemma_timers_from<T>(
    arena: Seq<TaskEntry<T>>,
    index: Map<T, usize>,
    bucket: Seq<usize>,
    k: int,
) -> (p: int)
    requires
        0 <= k < timers(arena, index, bucket).len(),
    ensures
        0 <= p < bucket.len(),
        is_current(arena, index, bucket[p]),
        timers(arena, index, bucket)[k] == timer_of(arena[bucket[p] as int]),
    decreases bucket.len(),
{
    let before = timers(arena, index, bucket.drop_last());
    if k < before.len() {
        lemma_timers_from(arena, index, bucket.drop_last(), k)
    } else {
        bucket.len() - 1
    }
}

/// An id that is handed out of a bucket comes from its current slot, which is in the bucket
/// and due.
pub(crate) proof fn lemma_due_slot<T>(
    arena: Seq<TaskEntry<T>>,
    index: Map<T, usize>,
    bucket: Seq<usize>,
    now: int,
    id: T,
) -> (p: int)
    requires
        due_ids(timers(arena, index, bucket), now).contains(id),
    ensures
        0 <= p < bucket.len(),
        index.contains_key(id),
        index[id] == bucket[p],
        is_spent(arena, index, now, bucket[p]),
{
    let batch = timers(arena, index, bucket);
    let due = |t: Timer<T>| t.expire <= now;
    let ids = due_ids(batch, now);
    let j = choose|j: int| 0 <= j < ids.len() && ids[j] == id;
    let t = batch.filter(due)[j];
    assert(batch.filter(due).contains(t));
    lemma_filter(batch, due, t);
    let k = choose|k: int| 0 <= k < batch.len() && batch[k] == t;
    lemma_timers_from(arena, index, bucket, k)
}

/// Every current slot of a bucket gives a timer.
pub(crate) proof fn lemma_timers_to<T>(
    arena: Seq<TaskEntry<T>>,
    index: Map<T, usize>,
    bucket: Seq<usize>,
    p: int,
) -> (k: int)
    requires
        0 <= p < bucket.len(),
        is_current(arena, index, bucket[p]),
    ensures
        0 <= k < timers(arena, index, bucket).len(),
        timers(arena, index, bucket)[k] == timer_of(arena[bucket[p] as int]),
    decreases bucket.len(),
{
    if p == bucket.len() - 1 {
        timers(arena, index, bucket.drop_last()).len() as int
    } else {
        lemma_timers_to(arena, index, bucket.drop_last(), p)
    }
}

/// A bucket without repeated slots has no repeated ids.
pub(crate) proof fn lemma_timers_distinct<T>(
    arena: Seq<TaskEntry<T>>,
    index: Map<T, usize>,
    bucket: Seq<usize>,
    k: int,
    k2: int,
)
    requires
        bucket.no_duplicates(),
        0 <= k < k2 < timers(arena, index, bucket).len(),
    ensures
        timers(arena, index, bucket)[k].id != timers(arena, index, bucket)[k2].id,
    decreases bucket.len(),
{
    let init = bucket.drop_last();
    let before = timers(arena, index, init);
    if k2 < before.len() {
        lemma_timers_distinct(arena, index, init, k, k2);
    } else {
        let p = lemma_timers_from(arena, index, init, k);
        assert(bucket[p] == init[p]);
    }
}

} // verus!
