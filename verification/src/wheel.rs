//! The hierarchical wheel: arena, index and three rings of buckets.

use std::collections::HashMap;
use std::hash::Hash;
use std::time::Duration;

use vstd::prelude::*;

use crate::arena::{
    accounted, drained, filed, filed_total, is_current, is_spent, lemma_due_slot, lemma_file,
    lemma_grow, lemma_release, lemma_reuse, lemma_space, lemma_take, lemma_timers_distinct,
    lemma_timers_from, lemma_timers_same, lemma_timers_to, lemma_timers_without,
    lemma_trickled_none, lemma_trickled_push, no_rings, rings_shaped, taken, timer_of, timers,
    trickled, Place, Rings, TaskEntry,
};
use crate::config::{LV0_SLOTS, LV0_TICK, LV1_SLOTS, LV1_TICK, LV2_SLOTS, LV2_TICK};
use crate::ids::{copy_id, lawful_id};
use crate::laws::{law_advance, law_remove, law_schedule, lemma_filter};
use crate::level::Level;
use crate::metrics::Metrics;
use crate::model::{
    due_ids, lemma_cascaded_none, lemma_cascaded_push, lemma_due_push, level_for, level_period,
    level_slot, Timer, WheelModel,
};
use crate::promises::law_delay;
use crate::time::duration_millis;

verus! {

/// The number of ticks, each `tick_ms` milliseconds long, after which a timeout of
/// `timeout_ms` milliseconds is over: at least one, at most `u64::MAX`.
pub open spec fn ticks_of(timeout_ms: int, tick_ms: int) -> int {
    let ticks = timeout_ms / tick_ms;
    if ticks < 1 {
        1
    } else if ticks > u64::MAX {
        u64::MAX as int
    } else {
        ticks
    }
}

/// Computes [`ticks_of`].
pub fn delay_ticks(timeout_ms: u128, tick_ms: u128) -> (delay: u64)
    requires
        tick_ms > 0,
    ensures
        delay == ticks_of(timeout_ms as int, tick_ms as int),
        timeout_ms < tick_ms ==> delay == 1,
        tick_ms <= timeout_ms < (u64::MAX + 1) * tick_ms ==> delay * tick_ms <= timeout_ms < (delay
            + 1) * tick_ms,
        timeout_ms >= (u64::MAX + 1) * tick_ms ==> delay == u64::MAX,
{
    proof {
        law_delay(timeout_ms as int, tick_ms as int);
    }
    let ticks: u128 = timeout_ms / tick_ms;
    if ticks < 1 {
        1
    } else if ticks > u64::MAX as u128 {
        u64::MAX
    } else {
        ticks as u64
    }
}

/// The length of a tick in milliseconds: that of the configured interval, at least one.
pub open spec fn tick_length(interval_ms: int) -> int {
    if interval_ms < 1 {
        1
    } else {
        interval_ms
    }
}

/// The clock can reach the end of a delay of `delay` ticks, and the far end of the second
/// level, without overflow.
pub open spec fn in_range(now: int, delay: int) -> bool {
    &&& now + delay <= u64::MAX
    &&& now + LV2_TICK <= u64::MAX
}

/// The members of a sequence after a push.
proof fn lemma_push_to_set<A>(s: Seq<A>, a: A)
    ensures
        s.push(a).to_set() == s.to_set().insert(a),
{
    assert forall|x: A| #[trigger] s.push(a).to_set().contains(x) <==> s.to_set().insert(
        a,
    ).contains(x) by {
        if s.contains(x) {
            let k = choose|k: int| 0 <= k < s.len() && s[k] == x;
            assert(s.push(a)[k] == x);
        }
        if x == a {
            assert(s.push(a)[s.len() as int] == x);
        }
    }
    assert(s.push(a).to_set() =~= s.to_set().insert(a));
}

/// The members of two sequences together.
proof fn lemma_add_to_set<A>(s: Seq<A>, t: Seq<A>)
    ensures
        (s + t).to_set() == s.to_set().union(t.to_set()),
{
    assert forall|x: A| #[trigger] (s + t).to_set().contains(x) <==> s.to_set().union(
        t.to_set(),
    ).contains(x) by {
        if s.contains(x) {
            let k = choose|k: int| 0 <= k < s.len() && s[k] == x;
            assert((s + t)[k] == x);
        }
        if t.contains(x) {
            let k = choose|k: int| 0 <= k < t.len() && t[k] == x;
            assert((s + t)[s.len() + k] == x);
        }
    }
    assert((s + t).to_set() =~= s.to_set().union(t.to_set()));
}

/// The members of what is left of a sequence without its first `k` and then its next member.
proof fn lemma_skip_to_set(s: Seq<usize>, k: int)
    requires
        0 <= k < s.len(),
        s.no_duplicates(),
    ensures
        s.skip(k).to_set().contains(s[k]),
        s.skip(k).to_set().remove(s[k]) == s.skip(k + 1).to_set(),
{
    let rest = s.skip(k);
    let less = s.skip(k + 1);
    assert(rest[0] == s[k]);
    assert forall|x: usize| #[trigger] rest.to_set().remove(s[k]).contains(x)
        <==> less.to_set().contains(x) by {
        if rest.contains(x) && x != s[k] {
            let j = choose|j: int| 0 <= j < rest.len() && rest[j] == x;
            assert(less[j - 1] == x);
        }
        if less.contains(x) {
            let j = choose|j: int| 0 <= j < less.len() && less[j] == x;
            assert(rest[j + 1] == x);
            assert(s[k + 1 + j] == x);
        }
    }
    assert(rest.to_set().remove(s[k]) =~= less.to_set());
}

/// Hierarchical timing wheel.
///
/// Tasks live in an arena; the buckets of three levels hold arena indices; `id_map` leads
/// from an id to its current arena slot.  Rescheduling takes a new slot and leaves the old
/// one behind as a stale copy, which is reclaimed when its bucket drains.
pub struct Wheel<T> {
    levels: [Level; 3],
    arena: Vec<TaskEntry<T>>,
    free: Vec<usize>,
    id_map: HashMap<T, usize>,
    current_tick: u64,
    tick_ms: u128,
    place: Ghost<Seq<Place>>,
}

impl<T: Eq + Hash + Clone> View for Wheel<T> {
    type V = WheelModel<T>;

    closed spec fn view(&self) -> WheelModel<T> {
        WheelModel {
            now: self.current_tick as int,
            lanes: Seq::new(
                3,
                |l: int|
                    Seq::new(LV0_SLOTS as nat, |s: int| self.timers(self.rings()[l][s])),
            ),
        }
    }
}

impl<T: Eq + Hash + Clone> Wheel<T> {
    /// The entries of the arena.
    pub closed spec fn entries(&self) -> Seq<TaskEntry<T>> {
        self.arena@
    }

    /// The arena slots that can be reused, the next one last.
    pub closed spec fn free_list(&self) -> Seq<usize> {
        self.free@
    }

    /// The current arena slot of each tracked id.
    pub closed spec fn index(&self) -> Map<T, usize> {
        self.id_map@
    }

    /// The arena indices in each bucket of each level.
    pub closed spec fn rings(&self) -> Rings {
        Seq::new(3, |l: int| self.levels@[l].buckets())
    }

    /// The tick that the wheel has reached.
    pub closed spec fn now(&self) -> u64 {
        self.current_tick
    }

    /// The length of a tick in milliseconds.
    pub closed spec fn tick_len(&self) -> u128 {
        self.tick_ms
    }

    /// The ids that the wheel tracks.
    pub open spec fn tracked_ids(&self) -> Set<T> {
        self.index().dom()
    }

    /// The timers that the arena indices of `bucket` stand for, without stale copies.
    pub open spec fn timers(&self, bucket: Seq<usize>) -> Seq<Timer<T>> {
        timers(self.entries(), self.index(), bucket)
    }

    /// The parts of the wheel fit together: index and free list name arena slots, and there
    /// are three levels of 64 buckets.  Nothing is said of what the buckets hold.
    pub closed spec fn sane(&self) -> bool {
        &&& lawful_id::<T>()
        &&& self.tick_ms > 0
        &&& forall|l: int|
            0 <= l < 3 ==> {
                &&& (#[trigger] self.levels@[l]).wf()
                &&& self.levels@[l].period() == level_period(l)
                &&& self.levels@[l].buckets().len() == LV0_SLOTS
            }
        &&& forall|id: T| #[trigger]
            self.id_map@.contains_key(id) ==> self.id_map@[id] < self.arena@.len()
        &&& forall|k: int| 0 <= k < self.free@.len() ==> #[trigger] self.free@[k] < self.arena@.len()
    }

    /// Every arena slot is in one place: on the free list, in the bucket that its expiry falls
    /// in, or among the slots `held`, which an operation has in hand.  Every tracked id leads
    /// to an entry of its own that is not free.
    pub closed spec fn wf_holding(&self, held: Set<usize>) -> bool {
        &&& self.sane()
        &&& self.place@.len() == self.arena@.len()
        &&& accounted(self.place@, self.rings(), self.free@, held)
        &&& forall|id: T| #[trigger]
            self.id_map@.contains_key(id) ==> {
                &&& self.arena@[self.id_map@[id] as int].id == id
                &&& self.place@[self.id_map@[id] as int] != Place::Free
            }
        &&& forall|i: int|
            0 <= i < self.arena@.len() ==> match #[trigger] self.place@[i] {
                Place::Bucket(l, s) => s == level_slot(l, self.arena@[i].expire_tick as int),
                _ => true,
            }
    }

    /// The free list names every slot once, and no tracked id leads to a free slot or to the
    /// slot of another id.
    pub open spec fn apart(&self) -> bool {
        &&& self.free_list().no_duplicates()
        &&& forall|k: int|
            0 <= k < self.free_list().len() ==> #[trigger] self.free_list()[k]
                < self.entries().len()
        &&& forall|id: T| #[trigger]
            self.index().contains_key(id) ==> self.index()[id] < self.entries().len()
                && !self.free_list().contains(self.index()[id])
        &&& forall|id: T, other: T| #[trigger]
            self.index().contains_key(id) && #[trigger] self.index().contains_key(other)
                && self.index()[id] == self.index()[other] ==> id == other
    }

    /// The wheel is in order: no slot is in hand, and no timer has been passed over.
    pub open spec fn wf(&self) -> bool {
        &&& self.sane()
        &&& self.wf_holding(Set::empty())
        &&& self@.timely()
    }

    /// Everything but the buckets, the arena and the index is as in `other`.
    pub open spec fn same_clock(&self, other: &Self) -> bool {
        &&& self.now() == other.now()
        &&& self.tick_len() == other.tick_len()
    }

    /// The arena slot that the next task takes.
    pub open spec fn next_slot(&self) -> usize {
        if self.free_list().len() > 0 {
            self.free_list().last()
        } else {
            self.entries().len() as usize
        }
    }

    /// The generation of the next schedule of `id`: one more than that of its entry, or zero.
    pub open spec fn next_generation(&self, id: T) -> u64 {
        if self.index().contains_key(id) {
            let entry = self.entries()[self.index()[id] as int];
            ((entry.generation + 1) % 0x1_0000_0000_0000_0000) as u64
        } else {
            0
        }
    }

    /// The wheel is `before` with an arena slot taken for `id`.
    pub open spec fn took_slot(&self, before: &Self, id: T, expire_tick: u64) -> bool {
        let slot = before.next_slot();
        let entry = TaskEntry { id, expire_tick, generation: before.next_generation(id) };
        &&& self.index() == before.index().insert(id, slot)
        &&& if before.free_list().len() > 0 {
            &&& self.free_list() == before.free_list().drop_last()
            &&& self.entries() == before.entries().update(slot as int, entry)
        } else {
            &&& self.free_list() == before.free_list()
            &&& self.entries() == before.entries().push(entry)
        }
    }

    /// The buckets of `before` with arena slot `idx` filed for tick `expire_tick`.
    pub open spec fn rings_with(before: &Self, expire_tick: u64, idx: usize) -> Rings {
        let level = level_for(before.now() as int, expire_tick as int);
        filed(before.rings(), level, level_slot(level, expire_tick as int), idx)
    }

    /// The wheel is `before` with `id` scheduled for tick `expire_tick`: it has a new arena
    /// slot, filed in its bucket, and every other id keeps its slot and its entry.
    pub open spec fn booked(&self, before: &Self, id: T, expire_tick: u64) -> bool {
        &&& self.took_slot(before, id, expire_tick)
        &&& self.rings() == Self::rings_with(before, expire_tick, before.next_slot())
        &&& forall|other: T| #[trigger]
            before.index().contains_key(other) && other != id ==> {
                &&& self.index().contains_key(other)
                &&& self.index()[other] == before.index()[other]
                &&& self.entries()[self.index()[other] as int]
                    == before.entries()[self.index()[other] as int]
            }
    }

    /// An empty wheel at tick zero.
    pub fn new(tick_interval: Duration) -> (wheel: Self)
        requires
            lawful_id::<T>(),
        ensures
            wheel.wf(),
            wheel@ == WheelModel::<T>::fresh(),
            wheel.now() == 0,
            wheel.index() == Map::<T, usize>::empty(),
            wheel.entries() == Seq::<TaskEntry<T>>::empty(),
            wheel.free_list() == Seq::<usize>::empty(),
            wheel.rings() == no_rings(),
            wheel.tick_len() == tick_length(duration_millis(tick_interval) as int),
            duration_millis(tick_interval) >= 1 ==> wheel.tick_len() == duration_millis(
                tick_interval,
            ),
            duration_millis(tick_interval) == 0 ==> wheel.tick_len() == 1,
    {
        let millis: u128 = tick_interval.as_millis();
        let wheel = Wheel {
            levels: [
                Level::new(LV0_SLOTS, LV0_TICK),
                Level::new(LV1_SLOTS, LV1_TICK),
                Level::new(LV2_SLOTS, LV2_TICK),
            ],
            arena: Vec::new(),
            free: Vec::new(),
            id_map: HashMap::new(),
            current_tick: 0,
            tick_ms: if millis < 1 {
                1
            } else {
                millis
            },
            place: Ghost(Seq::empty()),
        };
        assert(wheel.rings() =~~= no_rings());
        assert(wheel@.lanes =~~= WheelModel::<T>::fresh().lanes);
        wheel
    }

    /// Take an arena slot for `id` and make it the current one.
    ///
    /// The slot is in no bucket yet: it is in hand, beside the slots that were already.
    /// Returns its index and the generation of the entry.
    pub fn allocate(&mut self, id: T, expire_tick: u64) -> (res: (usize, u64))
        requires
            old(self).sane(),
        ensures
            final(self).sane(),
            res == (old(self).next_slot(), old(self).next_generation(id)),
            final(self).took_slot(old(self), id, expire_tick),
            final(self).rings() == old(self).rings(),
            final(self).same_clock(old(self)),
            forall|held: Set<usize>| #[trigger]
                old(self).wf_holding(held) ==> {
                    &&& final(self).wf_holding(held.insert(res.0))
                    &&& final(self)@ == old(self)@.without(id)
                },
    {
        let generation: u64 = match self.id_map.get(&id) {
            Some(idx) => self.arena[*idx].generation.wrapping_add(1),
            None => 0,
        };
        let entry = TaskEntry { id: copy_id(&id), expire_tick, generation };
        let ghost ghost_id = id;
        let idx: usize = match self.free.pop() {
            Some(i) => {
                assert(i == old(self).free@[old(self).free@.len() - 1]);
                self.arena[i] = entry;
                self.place = Ghost(self.place@.update(i as int, Place::Held));
                i
            },
            None => {
                self.arena.push(entry);
                let i: usize = self.arena.len() - 1;
                self.place = Ghost(self.place@.push(Place::Held));
                i
            },
        };
        self.id_map.insert(id, idx);
        assert(self.rings() == old(self).rings());
        assert(old(self).free@.len() > 0 ==> self.free@ =~= old(self).free@.drop_last());
        proof {
            assert forall|held: Set<usize>| #[trigger] old(self).wf_holding(held) implies {
                &&& self.wf_holding(held.insert(idx))
                &&& self@ == old(self)@.without(ghost_id)
            } by {
                if old(self).free@.len() > 0 {
                    lemma_reuse(old(self).place@, self.rings(), old(self).free@, held);
                } else {
                    lemma_grow(old(self).place@, self.rings(), old(self).free@, held);
                }
                assert forall|l: int, s: int| 0 <= l < 3 && 0 <= s < LV0_SLOTS implies self.timers(
                    #[trigger] self.rings()[l][s],
                ) == old(self).timers(old(self).rings()[l][s]).filter(
                    |t: Timer<T>| t.id != ghost_id,
                ) by {
                    lemma_timers_without(
                        old(self).arena@,
                        old(self).id_map@,
                        self.arena@,
                        self.id_map@,
                        self.rings()[l][s],
                        ghost_id,
                    );
                }
                assert(self@.lanes =~~= old(self)@.without(ghost_id).lanes);
            }
        }
        (idx, generation)
    }

    /// File arena slot `idx` for tick `expire_tick`, in the highest level whose granularity is
    /// at most the delay.
    pub fn push_to_level(&mut self, expire_tick: u64, idx: usize)
        requires
            old(self).sane(),
            old(self).now() + LV2_TICK <= u64::MAX,
        ensures
            final(self).sane(),
            final(self).rings() == Self::rings_with(old(self), expire_tick, idx),
            final(self).entries() == old(self).entries(),
            final(self).index() == old(self).index(),
            final(self).free_list() == old(self).free_list(),
            final(self).same_clock(old(self)),
            old(self).entries()[idx as int].expire_tick == expire_tick ==> {
                &&& final(self)@ == if is_current(old(self).entries(), old(self).index(), idx) {
                    old(self)@.placed(
                        level_for(old(self).now() as int, expire_tick as int),
                        timer_of(old(self).entries()[idx as int]),
                    )
                } else {
                    old(self)@
                }
                &&& forall|held: Set<usize>| #[trigger]
                    old(self).wf_holding(held) && held.contains(idx) ==> final(self).wf_holding(
                        held.remove(idx),
                    )
            },
    {
        let target_level: usize = if expire_tick >= self.current_tick + LV2_TICK {
            2
        } else if expire_tick >= self.current_tick + LV1_TICK {
            1
        } else {
            0
        };
        self.file(target_level, expire_tick, idx);
    }

    /// Put arena slot `idx` into the bucket of `level` that `expire` falls in.
    fn file(&mut self, level: usize, expire: u64, idx: usize)
        requires
            old(self).sane(),
            level < 3,
        ensures
            final(self).sane(),
            final(self).rings() == filed(
                old(self).rings(),
                level as int,
                level_slot(level as int, expire as int),
                idx,
            ),
            final(self).entries() == old(self).entries(),
            final(self).index() == old(self).index(),
            final(self).free_list() == old(self).free_list(),
            final(self).same_clock(old(self)),
            old(self).entries()[idx as int].expire_tick == expire ==> {
                &&& final(self)@ == if is_current(old(self).entries(), old(self).index(), idx) {
                    old(self)@.placed(level as int, timer_of(old(self).entries()[idx as int]))
                } else {
                    old(self)@
                }
                &&& forall|held: Set<usize>| #[trigger]
                    old(self).wf_holding(held) && held.contains(idx) ==> final(self).wf_holding(
                        held.remove(idx),
                    )
            },
    {
        let ghost slot = level_slot(level as int, expire as int);
        self.levels[level].push(expire, idx);
        self.place = Ghost(self.place@.update(idx as int, Place::Bucket(level as int, slot)));
        assert(self.rings() =~= filed(old(self).rings(), level as int, slot, idx));
        proof {
            if old(self).entries()[idx as int].expire_tick == expire {
                let bucket = old(self).rings()[level as int][slot];
                assert(bucket.push(idx).drop_last() =~= bucket);
                let target = if is_current(self.arena@, self.id_map@, idx) {
                    old(self)@.placed(level as int, timer_of(self.arena@[idx as int]))
                } else {
                    old(self)@
                };
                assert(self@.lanes =~~= target.lanes);
                assert forall|held: Set<usize>| #[trigger] old(self).wf_holding(held)
                    && held.contains(idx) implies self.wf_holding(held.remove(idx)) by {
                    lemma_file(
                        old(self).place@,
                        old(self).rings(),
                        self.free@,
                        held,
                        idx,
                        level as int,
                        slot,
                    );
                }
            }
        }
    }

    /// The tick that the wheel has reached.
    pub fn current_tick(&self) -> (tick: u64)
        ensures
            tick == self.now(),
            tick == self@.now,
    {
        self.current_tick
    }

    /// The clock can run to the end of `timeout`.
    pub open spec fn reaches(&self, timeout: Duration) -> bool {
        in_range(
            self.now() as int,
            ticks_of(duration_millis(timeout) as int, self.tick_len() as int),
        )
    }

    /// Whether the clock can run to the end of `timeout` without overflow.
    pub fn fits(&self, timeout: Duration) -> (fits: bool)
        requires
            self.sane(),
        ensures
            fits == self.reaches(timeout),
    {
        let delay: u64 = delay_ticks(timeout.as_millis(), self.tick_ms);
        delay <= u64::MAX - self.current_tick && LV2_TICK <= u64::MAX - self.current_tick
    }

    /// Schedule `id` to expire `timeout` from now, in place of any earlier schedule of it.
    pub fn schedule(&mut self, id: T, timeout: Duration)
        requires
            old(self).wf(),
            old(self).reaches(timeout),
        ensures
            final(self).wf(),
            ({
                let delay = ticks_of(duration_millis(timeout) as int, old(self).tick_len() as int);
                &&& final(self)@ == old(self)@.scheduled(id, delay)
                &&& forall|due: int| #[trigger]
                    final(self)@.due_at(id, due) <==> due == old(self).now() + delay
                &&& final(self).booked(old(self), id, (old(self).now() + delay) as u64)
            }),
            final(self).same_clock(old(self)),
    {
        let delay: u64 = delay_ticks(timeout.as_millis(), self.tick_ms);
        self.schedule_ticks(id, delay);
    }

    /// Schedule `id` to expire `delay` ticks from now, in place of any earlier schedule of it.
    pub fn schedule_ticks(&mut self, id: T, delay: u64)
        requires
            old(self).wf(),
            in_range(old(self).now() as int, delay as int),
            delay >= 1,
        ensures
            final(self).wf(),
            final(self)@ == old(self)@.scheduled(id, delay as int),
            forall|due: int| #[trigger]
                final(self)@.due_at(id, due) <==> due == old(self).now() + delay,
            final(self).booked(old(self), id, (old(self).now() + delay) as u64),
            final(self).same_clock(old(self)),
    {
        let ghost ghost_id = id;
        let expire_tick: u64 = self.current_tick + delay;
        let (idx, _) = self.allocate(id, expire_tick);
        self.push_to_level(expire_tick, idx);
        proof {
            assert(Set::<usize>::empty().insert(idx).remove(idx) =~= Set::<usize>::empty());
            old(self).lemma_view();
            law_schedule(old(self)@, ghost_id, delay as int);
            assert forall|other: T| #[trigger] old(self).index().contains_key(other) && other
                != ghost_id implies old(self).index()[other] != idx by {
                assert(old(self).place@[old(self).id_map@[other] as int] != Place::Free);
                if old(self).free@.len() > 0 {
                    assert(old(self).free@[old(self).free@.len() - 1] == idx);
                }
            }
        }
    }

    /// Forget `id`.
    ///
    /// Its arena slot stays in its bucket as a stale copy and is reclaimed when the bucket
    /// drains.
    pub fn remove(&mut self, id: &T)
        requires
            old(self).sane(),
        ensures
            final(self).sane(),
            final(self)@ == old(self)@.without(*id),
            final(self).index() == old(self).index().remove(*id),
            final(self).entries() == old(self).entries(),
            final(self).free_list() == old(self).free_list(),
            final(self).rings() == old(self).rings(),
            final(self).same_clock(old(self)),
            forall|held: Set<usize>| #[trigger]
                old(self).wf_holding(held) ==> final(self).wf_holding(held),
            old(self).wf() ==> final(self).wf(),
    {
        self.id_map.remove(id);
        assert(self.rings() == old(self).rings());
        proof {
            assert forall|l: int, s: int| 0 <= l < 3 && 0 <= s < LV0_SLOTS implies self.timers(
                #[trigger] self.rings()[l][s],
            ) == old(self).timers(old(self).rings()[l][s]).filter(
                |t: Timer<T>| t.id != *id,
            ) by {
                lemma_timers_without(
                    old(self).arena@,
                    old(self).id_map@,
                    self.arena@,
                    self.id_map@,
                    self.rings()[l][s],
                    *id,
                );
            }
            assert(self@.lanes =~~= old(self)@.without(*id).lanes);
            if old(self).wf() {
                old(self).lemma_view();
                law_remove(old(self)@, *id);
            }
        }
    }

    /// Put arena slot `idx` on the free list.
    fn release(&mut self, idx: usize)
        requires
            old(self).sane(),
            idx < old(self).entries().len(),
        ensures
            final(self).sane(),
            final(self)@ == old(self)@,
            final(self).rings() == old(self).rings(),
            final(self).entries() == old(self).entries(),
            final(self).index() == old(self).index(),
            final(self).free_list() == old(self).free_list().push(idx),
            final(self).same_clock(old(self)),
            forall|held: Set<usize>| #[trigger]
                old(self).wf_holding(held) && held.contains(idx) && !is_current(
                    old(self).entries(),
                    old(self).index(),
                    idx,
                ) ==> final(self).wf_holding(held.remove(idx)),
    {
        self.free.push(idx);
        self.place = Ghost(self.place@.update(idx as int, Place::Free));
        assert(self.rings() == old(self).rings());
        assert(self@.lanes =~~= old(self)@.lanes);
        proof {
            assert forall|held: Set<usize>| #[trigger] old(self).wf_holding(held) && held.contains(
                idx,
            ) && !is_current(old(self).entries(), old(self).index(), idx) implies self.wf_holding(
                held.remove(idx),
            ) by {
                lemma_release(old(self).place@, self.rings(), old(self).free@, held, idx);
            }
        }
    }

    /// Forget the id of arena slot `idx` and return it.
    fn retire(&mut self, idx: usize) -> (id: T)
        requires
            old(self).sane(),
            idx < old(self).entries().len(),
        ensures
            final(self).sane(),
            id == old(self).entries()[idx as int].id,
            final(self).rings() == old(self).rings(),
            final(self).entries() == old(self).entries(),
            final(self).index() == old(self).index().remove(id),
            final(self).free_list() == old(self).free_list(),
            final(self).same_clock(old(self)),
            forall|held: Set<usize>| #[trigger]
                old(self).wf_holding(held) && held.contains(idx) && is_current(
                    old(self).entries(),
                    old(self).index(),
                    idx,
                ) ==> final(self).wf_holding(held) && final(self)@ == old(self)@,
    {
        let id = copy_id(&self.arena[idx].id);
        self.id_map.remove(&id);
        assert(self.rings() == old(self).rings());
        proof {
            assert forall|held: Set<usize>| #[trigger] old(self).wf_holding(held) && held.contains(
                idx,
            ) && is_current(old(self).entries(), old(self).index(), idx) implies self.wf_holding(
                held,
            ) && self@ == old(self)@ by {
                assert(self.place@[idx as int] == Place::Held);
                assert forall|l: int, s: int| 0 <= l < 3 && 0 <= s < LV0_SLOTS implies self.timers(
                    #[trigger] self.rings()[l][s],
                ) == old(self).timers(old(self).rings()[l][s]) by {
                    lemma_timers_same(
                        old(self).arena@,
                        old(self).id_map@,
                        self.arena@,
                        self.id_map@,
                        self.rings()[l][s],
                    );
                }
                assert(self@.lanes =~~= old(self)@.lanes);
            }
        }
        id
    }

    /// Process a drained bucket: expire tasks that are due, cascade the rest, and reclaim
    /// the arena slots of expired tasks and of stale copies.
    pub fn process_slot(&mut self, indices: Vec<usize>, level: usize, expired: &mut Vec<T>)
        requires
            level < 3,
            old(self).sane(),
            indices@.no_duplicates(),
        ensures
            final(self).sane(),
            final(expired)@ == old(expired)@ + due_ids(
                old(self).timers(indices@),
                old(self).now() as int,
            ),
            final(self).index() == old(self).index().remove_keys(
                due_ids(old(self).timers(indices@), old(self).now() as int).to_set(),
            ),
            final(self).rings() == trickled(
                old(self).rings(),
                old(self).entries(),
                old(self).index(),
                old(self).now() as int,
                level as int,
                indices@,
            ),
            final(self).free_list() == old(self).free_list() + indices@.filter(
                |i: usize|
                    is_spent(
                        old(self).entries(),
                        old(self).index(),
                        old(self).now() as int,
                        i,
                    ),
            ),
            final(self).entries() == old(self).entries(),
            final(self).same_clock(old(self)),
            old(self).wf_holding(indices@.to_set()) ==> {
                &&& final(self).wf_holding(Set::empty())
                &&& final(self)@ == old(self)@.cascaded(level as int, old(self).timers(indices@))
            },
    {
        let ghost arena = self.arena@;
        let ghost index = self.id_map@;
        let ghost rings = self.rings();
        let ghost now = self.current_tick as int;
        let ghost before = self@;
        let ghost orderly = self.wf_holding(indices@.to_set());
        let ghost spent = |i: usize| is_spent(arena, index, now, i);
        let mut k: usize = 0;
        proof {
            reveal_with_fuel(Seq::filter, 1);
            lemma_cascaded_none(before, level as int);
            lemma_trickled_none(rings, arena, index, now, level as int);
            assert(indices@.skip(0) =~= indices@);
            assert(indices@.take(0) =~= Seq::empty());
            assert(due_ids(Seq::<Timer<T>>::empty(), now).to_set() =~= Set::empty());
            assert(index.remove_keys(Set::empty()) =~= index);
        }
        while k < indices.len()
            invariant
                k <= indices@.len(),
                level < 3,
                indices@.no_duplicates(),
                before.shaped(),
                rings_shaped(rings),
                before == old(self)@,
                before.now == now,
                arena == old(self).entries(),
                index == old(self).index(),
                rings == old(self).rings(),
                now == old(self).now(),
                spent == (|i: usize| is_spent(arena, index, now, i)),
                orderly == old(self).wf_holding(indices@.to_set()),
                self.sane(),
                self.entries() == arena,
                self.same_clock(old(self)),
                expired@ == old(expired)@ + due_ids(
                    timers(arena, index, indices@.take(k as int)),
                    now,
                ),
                self.index() == index.remove_keys(
                    due_ids(timers(arena, index, indices@.take(k as int)), now).to_set(),
                ),
                self.rings() == trickled(
                    rings,
                    arena,
                    index,
                    now,
                    level as int,
                    indices@.take(k as int),
                ),
                self.free_list() == old(self).free_list() + indices@.take(k as int).filter(spent),
                forall|j: int|
                    k <= j < indices@.len() ==> (is_current(
                        arena,
                        self.index(),
                        #[trigger] indices@[j],
                    ) <==> is_current(arena, index, indices@[j])),
                orderly ==> {
                    &&& self.wf_holding(indices@.skip(k as int).to_set())
                    &&& self@ == before.cascaded(
                        level as int,
                        timers(arena, index, indices@.take(k as int)),
                    )
                },
            decreases indices@.len() - k,
        {
            let idx: usize = indices[k];
            let ghost held = indices@.skip(k as int).to_set();
            let ghost done = indices@.take(k as int);
            let ghost batch = timers(arena, index, done);
            proof {
                lemma_skip_to_set(indices@, k as int);
                assert(indices@.take(k + 1) =~= done.push(idx));
                assert(done.push(idx).drop_last() =~= done);
                lemma_due_push(batch, now, timer_of(arena[idx as int]));
                lemma_cascaded_push(before, level as int, batch, timer_of(arena[idx as int]));
                lemma_trickled_push(rings, arena, index, now, level as int, done, idx);
                done.lemma_filter_push(idx, spent);
                lemma_push_to_set(due_ids(batch, now), arena[idx as int].id);
            }
            if idx < self.arena.len() {
                let current: bool = match self.id_map.get(&self.arena[idx].id) {
                    Some(at) => *at == idx,
                    None => false,
                };
                assert(current == is_current(arena, index, idx));
                if !current {
                    self.release(idx);
                } else if self.current_tick >= self.arena[idx].expire_tick {
                    let id = self.retire(idx);
                    self.release(idx);
                    expired.push(id);
                    assert(self.index() =~= index.remove_keys(
                        due_ids(timers(arena, index, done.push(idx)), now).to_set(),
                    ));
                } else {
                    let below: usize = if level > 0 {
                        level - 1
                    } else {
                        0
                    };
                    self.file(below, self.arena[idx].expire_tick, idx);
                }
            }
            k = k + 1;
        }
        proof {
            assert(indices@.take(k as int) =~= indices@);
            assert(indices@.skip(k as int).to_set() =~= Set::empty());
        }
    }

    /// Take bucket `slot` of `level` out of the wheel.
    fn take_bucket(&mut self, level: usize, slot: usize) -> (indices: Vec<usize>)
        requires
            old(self).wf_holding(Set::empty()),
            level < 3,
            slot < LV0_SLOTS,
        ensures
            final(self).wf_holding(indices@.to_set()),
            final(self).sane(),
            indices@.no_duplicates(),
            indices@ == old(self).rings()[level as int][slot as int],
            final(self)@ == old(self)@.emptied(level as int, slot as int),
            final(self).timers(indices@) == old(self)@.lanes[level as int][slot as int],
            final(self).rings() == drained(old(self).rings(), level as int, slot as int),
            final(self).entries() == old(self).entries(),
            final(self).index() == old(self).index(),
            final(self).free_list() == old(self).free_list(),
            final(self).same_clock(old(self)),
    {
        assert(self.rings()[level as int].len() == LV0_SLOTS);
        let indices = self.levels[level].take(slot);
        proof {
            lemma_take(
                self.place@,
                old(self).rings(),
                self.free@,
                level as int,
                slot as int,
            );
        }
        self.place = Ghost(taken(self.place@, level as int, slot as int));
        assert(self.rings() =~= drained(old(self).rings(), level as int, slot as int));
        assert(self@.lanes =~~= old(self)@.emptied(level as int, slot as int).lanes);
        indices
    }

    /// The wheel is `before` with the ids `expired` forgotten and their arena slots free.
    pub open spec fn relieved(&self, before: &Self, expired: Seq<T>) -> bool {
        &&& self.entries() == before.entries()
        &&& self.index() == before.index().remove_keys(expired.to_set())
        &&& before.free_list().is_prefix_of(self.free_list())
        &&& forall|id: T| #[trigger]
            expired.contains(id) ==> before.index().contains_key(id) && self.free_list().contains(
                before.index()[id],
            )
    }

    /// Drain the bucket of `level` under the hand and process it.
    fn sweep(&mut self, level: usize, expired: &mut Vec<T>)
        requires
            old(self).wf_holding(Set::empty()),
            level < 3,
        ensures
            final(self).wf_holding(Set::empty()),
            final(self)@ == old(self)@.swept(level as int),
            final(expired)@ == old(expired)@ + due_ids(
                old(self)@.hand(level as int),
                old(self)@.now,
            ),
            final(self).relieved(
                old(self),
                due_ids(old(self)@.hand(level as int), old(self)@.now),
            ),
            final(self).same_clock(old(self)),
    {
        assert(self.rings()[level as int].len() == LV0_SLOTS);
        let slot: usize = self.levels[level].slot_now(self.current_tick);
        let indices = self.take_bucket(level, slot);
        let ghost batch = indices@;
        self.process_slot(indices, level, expired);
        proof {
            let arena = old(self).entries();
            let index = old(self).index();
            let now = old(self).now() as int;
            let ids = due_ids(timers(arena, index, batch), now);
            let spent = |i: usize| is_spent(arena, index, now, i);
            let freed = batch.filter(spent);
            assert(old(self).free_list().is_prefix_of(self.free_list()));
            assert forall|id: T| #[trigger] ids.contains(id) implies index.contains_key(id)
                && self.free_list().contains(index[id]) by {
                let p = lemma_due_slot(arena, index, batch, now, id);
                lemma_filter(batch, spent, batch[p]);
                assert(batch.contains(batch[p]));
                vstd::seq_lib::lemma_seq_concat_contains_all_elements(
                    old(self).free_list(),
                    freed,
                    batch[p],
                );
            }
        }
    }

    /// Advance one base tick.  Returns expired task ids to fire.
    ///
    /// The levels are swept from the top down, so that a task that comes down is caught by
    /// the sweep of the level that it comes down to.  The ids of the lowest level come first.
    pub fn advance(&mut self, metrics: &mut Metrics) -> (expired: Vec<T>)
        requires
            old(self).wf(),
            old(self).now() < u64::MAX,
        ensures
            final(self).wf(),
            final(self)@ == old(self)@.advanced(),
            expired@ == old(self)@.advance_ids(),
            expired@.no_duplicates(),
            forall|id: T| #[trigger]
                expired@.contains(id) <==> old(self)@.due_at(id, old(self).now() + 1),
            final(self).relieved(old(self), expired@),
            final(self).now() == old(self).now() + 1,
            final(self).tick_len() == old(self).tick_len(),
            final(self).tracked_ids().finite(),
            final(self).tracked_ids().len() <= usize::MAX,
            *final(metrics) == (Metrics {
                active: final(self).tracked_ids().len() as usize,
                ..*old(metrics)
            }),
    {
        let mut highest: Vec<T> = Vec::new();
        let mut middle: Vec<T> = Vec::new();
        let mut expired: Vec<T> = Vec::new();
        self.current_tick = self.current_tick + 1;
        let ghost m = self@;
        let ghost start = *self;
        proof {
            reveal_with_fuel(WheelModel::swept_upto, 4);
            reveal_with_fuel(WheelModel::expired_upto, 4);
            assert(self.rings() == old(self).rings());
            assert(m.lanes =~~= old(self)@.ticked().lanes);
            assert(Seq::<T>::empty().to_set() =~= Set::empty());
            old(self).lemma_view();
            law_advance(old(self)@);
            assert(self.index().remove_keys(Set::empty()) =~= self.index());
            assert(self.relieved(&start, Seq::empty()));
        }
        if self.current_tick % LV2_TICK == 0 {
            let ghost before = *self;
            self.sweep(2, &mut highest);
            proof {
                Self::lemma_relieved(&start, &before, self, Seq::empty(), highest@);
            }
        }
        assert(m.swept_upto(1) == self@);
        assert(m.expired_upto(1) =~= highest@);
        assert(highest@ + Seq::empty() =~= highest@);
        assert(self.relieved(&start, highest@));
        if self.current_tick % LV1_TICK == 0 {
            let ghost before = *self;
            self.sweep(1, &mut middle);
            proof {
                Self::lemma_relieved(&start, &before, self, highest@, middle@);
            }
        }
        assert(m.swept_upto(2) == self@);
        assert(m.expired_upto(2) =~= middle@ + highest@);
        assert(middle@.len() == 0 ==> middle@ + highest@ =~= highest@);
        assert(self.relieved(&start, middle@ + highest@));
        let ghost before = *self;
        self.sweep(0, &mut expired);
        let ghost lowest = expired@;
        proof {
            Self::lemma_relieved(&start, &before, self, middle@ + highest@, lowest);
            assert(m.turns(0));
            assert(m.swept_upto(3) == self@);
            assert(m.expired_upto(3) =~= lowest + (middle@ + highest@));
            assert((lowest + middle@) + highest@ =~= lowest + (middle@ + highest@));
        }
        expired.append(&mut middle);
        expired.append(&mut highest);
        metrics.active = self.id_map.len();
        expired
    }

    /// Relief in two steps.
    proof fn lemma_relieved(start: &Self, mid: &Self, end: &Self, first: Seq<T>, second: Seq<T>)
        requires
            mid.relieved(start, first),
            end.relieved(mid, second),
        ensures
            end.relieved(start, second + first),
    {
        lemma_add_to_set(second, first);
        assert(end.index() =~= start.index().remove_keys((second + first).to_set()));
        assert forall|id: T| #[trigger] (second + first).contains(id) implies start.index().contains_key(
            id,
        ) && end.free_list().contains(start.index()[id]) by {
            vstd::seq_lib::lemma_seq_concat_contains_all_elements(second, first, id);
            if first.contains(id) {
                let i = start.index()[id];
                let k = choose|k: int| 0 <= k < mid.free_list().len() && mid.free_list()[k] == i;
                assert(end.free_list()[k] == i);
            }
        }
    }

    /// Expire every remaining task at once.  Returns their ids.
    pub fn drain_all(&mut self) -> (expired: Vec<T>)
        requires
            old(self).wf(),
        ensures
            final(self).wf(),
            final(self)@ == old(self)@.cleared(),
            expired@ == old(self)@.all_ids(),
            final(self).index() == Map::<T, usize>::empty(),
            final(self).rings() == no_rings(),
            final(self).same_clock(old(self)),
            final(self).entries() == old(self).entries(),
            forall|i: usize| i < final(self).entries().len() ==> #[trigger]
                final(self).free_list().contains(i),
    {
        let mut expired: Vec<T> = Vec::new();
        let mut n: usize = 0;
        let ghost before = self@;
        proof {
            assert(before.cleared_upto(0).lanes =~~= before.lanes);
        }
        while n < 3 * LV0_SLOTS
            invariant
                n <= 3 * LV0_SLOTS,
                before == old(self)@,
                before.shaped(),
                self.wf_holding(Set::empty()),
                self@ == before.cleared_upto(n as int),
                expired@ == before.ids_upto(n as nat),
                self.same_clock(old(self)),
                self.entries() == old(self).entries(),
                forall|l: int, s: int|
                    0 <= l < 3 && 0 <= s < LV0_SLOTS && l * LV0_SLOTS + s < n ==> (
                    #[trigger] self.rings()[l][s]).len() == 0,
            decreases 3 * LV0_SLOTS - n,
        {
            let level: usize = n / LV0_SLOTS;
            let slot: usize = n % LV0_SLOTS;
            let indices = self.take_bucket(level, slot);
            self.expire_slot(indices, &mut expired);
            proof {
                assert(self@.lanes =~~= before.cleared_upto(n + 1).lanes);
            }
            n = n + 1;
        }
        proof {
            assert(self@.lanes =~~= before.cleared().lanes);
            assert(self.rings() =~~= no_rings());
            self.lemma_view();
            assert forall|id: T| !self.index().contains_key(id) by {
                if self.tracked_ids().contains(id) {
                    assert(self@.waits(id));
                }
            }
            assert(self.index() =~= Map::<T, usize>::empty());
            assert forall|i: usize| i < self.entries().len() implies #[trigger] self.free_list().contains(
                i,
            ) by {
                self.law_slots(i);
            }
        }
        expired
    }

    /// Expire the tasks of a drained bucket whether due or not, and reclaim its arena slots.
    fn expire_slot(&mut self, indices: Vec<usize>, expired: &mut Vec<T>)
        requires
            old(self).wf_holding(indices@.to_set()),
            old(self).sane(),
            indices@.no_duplicates(),
        ensures
            final(self).wf_holding(Set::empty()),
            final(self)@ == old(self)@,
            final(expired)@ == old(expired)@ + old(self).timers(indices@).map_values(
                |t: Timer<T>| t.id,
            ),
            final(self).rings() == old(self).rings(),
            final(self).entries() == old(self).entries(),
            final(self).same_clock(old(self)),
    {
        let ghost arena = self.arena@;
        let ghost index = self.id_map@;
        let mut k: usize = 0;
        proof {
            assert(indices@.skip(0) =~= indices@);
            assert(indices@.take(0) =~= Seq::empty());
        }
        while k < indices.len()
            invariant
                k <= indices@.len(),
                indices@.no_duplicates(),
                arena == old(self).entries(),
                index == old(self).index(),
                self.wf_holding(indices@.skip(k as int).to_set()),
                self.sane(),
                self.entries() == arena,
                self.same_clock(old(self)),
                self.rings() == old(self).rings(),
                self@ == old(self)@,
                expired@ == old(expired)@ + timers(
                    arena,
                    index,
                    indices@.take(k as int),
                ).map_values(|t: Timer<T>| t.id),
                forall|j: int|
                    k <= j < indices@.len() ==> (is_current(
                        arena,
                        self.index(),
                        #[trigger] indices@[j],
                    ) <==> is_current(arena, index, indices@[j])),
            decreases indices@.len() - k,
        {
            let idx: usize = indices[k];
            let ghost held = indices@.skip(k as int).to_set();
            let ghost done = indices@.take(k as int);
            proof {
                lemma_skip_to_set(indices@, k as int);
                assert(indices@.take(k + 1) =~= done.push(idx));
                assert(done.push(idx).drop_last() =~= done);
                assert(held.contains(idx));
            }
            let current: bool = match self.id_map.get(&self.arena[idx].id) {
                Some(at) => *at == idx,
                None => false,
            };
            if current {
                let id = self.retire(idx);
                expired.push(id);
            }
            self.release(idx);
            proof {
                let ids = |t: Timer<T>| t.id;
                assert(timers(arena, index, done.push(idx)).map_values(ids) =~= if current {
                    timers(arena, index, done).map_values(ids).push(arena[idx as int].id)
                } else {
                    timers(arena, index, done).map_values(ids)
                });
            }
            k = k + 1;
        }
        assert(indices@.take(k as int) =~= indices@);
        assert(indices@.skip(k as int).to_set() =~= Set::empty());
    }

    /// The model goes by the clock of the wheel.
    pub proof fn lemma_now(&self)
        ensures
            self@.now == self.now(),
    {
    }

    /// The model has the timers of each bucket.
    pub(crate) proof fn lemma_lanes(&self, l: int, s: int)
        requires
            0 <= l < 3,
            0 <= s < LV0_SLOTS,
        ensures
            self@.lanes.len() == 3,
            self@.lanes[l].len() == LV0_SLOTS,
            self@.lanes[l][s] == self.timers(self.rings()[l][s]),
    {
    }

    /// Every arena slot is in one place: on the free list, or in a single bucket, once.
    pub proof fn law_slots(&self, i: usize)
        requires
            self.wf_holding(Set::empty()),
            i < self.entries().len(),
        ensures
            self.free_list().no_duplicates(),
            forall|l: int, s: int|
                0 <= l < 3 && 0 <= s < LV0_SLOTS ==> (
                #[trigger] self.rings()[l][s]).no_duplicates(),
            self.free_list().contains(i) <==> !exists|l: int, s: int|
                0 <= l < 3 && 0 <= s < LV0_SLOTS && #[trigger] self.rings()[l][s].contains(i),
            forall|l: int, s: int, l2: int, s2: int|
                0 <= l < 3 && 0 <= s < LV0_SLOTS && 0 <= l2 < 3 && 0 <= s2 < LV0_SLOTS
                    && #[trigger] self.rings()[l][s].contains(i)
                    && #[trigger] self.rings()[l2][s2].contains(i) ==> l == l2 && s == s2,
    {
        assert forall|l: int, s: int|
            0 <= l < 3 && 0 <= s < LV0_SLOTS && #[trigger] self.rings()[l][s].contains(
                i,
            ) implies self.place@[i as int] == Place::Bucket(l, s) by {
            let k = choose|k: int| 0 <= k < self.rings()[l][s].len() && self.rings()[l][s][k] == i;
        }
        if self.free_list().contains(i) {
            let k = choose|k: int| 0 <= k < self.free_list().len() && self.free_list()[k] == i;
            assert(self.place@[i as int] == Place::Free);
        }
        match self.place@[i as int] {
            Place::Free => {},
            Place::Held => {
                assert(Set::<usize>::empty().contains(i));
            },
            Place::Bucket(l, s) => {
                assert(self.rings()[l][s].contains(i));
            },
        }
    }

    /// The arena holds no more than what is free and what is filed: the number of its entries
    /// is the length of the free list and of all buckets together.
    pub proof fn law_space(&self)
        requires
            self.wf_holding(Set::empty()),
        ensures
            self.entries().len() == self.free_list().len() + filed_total(self.rings()),
    {
        lemma_space(self.place@, self.rings(), self.free@);
    }

    /// Every tracked id leads to an arena slot that holds an entry of it and is not free, and
    /// the free list names arena slots, each once.
    pub proof fn law_index(&self)
        requires
            self.wf_holding(Set::empty()),
        ensures
            forall|id: T| #[trigger]
                self.index().contains_key(id) ==> {
                    &&& self.index()[id] < self.entries().len()
                    &&& self.entries()[self.index()[id] as int].id == id
                    &&& !self.free_list().contains(self.index()[id])
                },
            self.apart(),
            self.free_list().no_duplicates(),
            forall|k: int|
                0 <= k < self.free_list().len() ==> #[trigger] self.free_list()[k]
                    < self.entries().len(),
            self.entries().len() <= usize::MAX,
            rings_shaped(self.rings()),
    {
        assert forall|id: T| #[trigger] self.index().contains_key(id)
            && self.free_list().contains(self.index()[id]) implies false by {
            let i = self.index()[id];
            let k = choose|k: int| 0 <= k < self.free_list().len() && self.free_list()[k] == i;
            assert(self.place@[i as int] == Place::Free);
        }
    }

    /// The parts of the wheel fit together: index and free list name slots of the arena, which
    /// is no larger than memory, and there are three levels of 64 buckets.
    pub proof fn law_sane(&self)
        requires
            self.sane(),
        ensures
            forall|id: T| #[trigger]
                self.index().contains_key(id) ==> self.index()[id] < self.entries().len(),
            forall|k: int|
                0 <= k < self.free_list().len() ==> #[trigger] self.free_list()[k]
                    < self.entries().len(),
            self.entries().len() <= usize::MAX,
            rings_shaped(self.rings()),
    {
        assert(self.arena.len() == self.arena@.len());
    }

    /// Every schedule takes a slot of its own: if no tracked id leads to a free slot or to the
    /// slot of another, then so it is again, and the new slot was nobody's before.  Every
    /// other id keeps its slot, and every other entry stays.
    pub proof fn law_allocate(&self, before: &Self, id: T, expire_tick: u64)
        requires
            before.sane(),
            before.apart(),
            self.took_slot(before, id, expire_tick),
        ensures
            self.apart(),
            self.index()[id] == before.next_slot(),
            forall|other: T| #[trigger]
                before.index().contains_key(other) ==> before.index()[other]
                    != before.next_slot(),
            forall|other: T| #[trigger]
                before.index().contains_key(other) && other != id ==> self.index().contains_key(
                    other,
                ) && self.index()[other] == before.index()[other],
            forall|i: int|
                0 <= i < before.entries().len() && i != before.next_slot() ==> #[trigger]
                    self.entries()[i] == before.entries()[i],
    {
        before.law_sane();
        let slot = before.next_slot();
        if before.free_list().len() > 0 {
            let last = before.free_list().len() - 1;
            assert(before.free_list()[last] == slot);
            assert(before.free_list().contains(slot));
            assert forall|i: usize| #[trigger] self.free_list().contains(
                i,
            ) implies before.free_list().contains(i) && i != slot by {
                let k = choose|k: int| 0 <= k < self.free_list().len() && self.free_list()[k] == i;
                assert(before.free_list()[k] == i);
            }
        } else {
            assert(slot == before.entries().len());
        }
    }

    /// A wheel without slots in hand has a model in which every timer is settled, and tracks
    /// exactly the ids that wait in it.
    pub proof fn lemma_view(&self)
        requires
            self.wf_holding(Set::empty()),
        ensures
            self@.settled(),
            forall|id: T| #[trigger] self.tracked_ids().contains(id) <==> self@.waits(id),
    {
        let m = self@;
        let arena = self.arena@;
        let index = self.id_map@;
        let rings = self.rings();
        assert forall|l: int, s: int, k: int, l2: int, s2: int, k2: int|
            #![trigger m.seat(l, s, k), m.seat(l2, s2, k2)]
            m.seat(l, s, k) && m.seat(l2, s2, k2) && m.lanes[l][s][k].id
                == m.lanes[l2][s2][k2].id implies l == l2 && s == s2 && k == k2 by {
            let p = lemma_timers_from(arena, index, rings[l][s], k);
            let p2 = lemma_timers_from(arena, index, rings[l2][s2], k2);
            assert(rings[l][s][p] == rings[l2][s2][p2]);
            assert(self.place@[rings[l][s][p] as int] == Place::Bucket(l, s));
            assert(self.place@[rings[l2][s2][p2] as int] == Place::Bucket(l2, s2));
            if k < k2 {
                lemma_timers_distinct(arena, index, rings[l][s], k, k2);
            } else if k2 < k {
                lemma_timers_distinct(arena, index, rings[l][s], k2, k);
            }
        }
        assert forall|l: int, s: int, k: int| #[trigger] m.seat(l, s, k) implies s == level_slot(
            l,
            m.lanes[l][s][k].expire,
        ) by {
            let p = lemma_timers_from(arena, index, rings[l][s], k);
            assert(self.place@[rings[l][s][p] as int] == Place::Bucket(l, s));
        }
        assert forall|id: T| #[trigger] self.tracked_ids().contains(id) <==> m.waits(id) by {
            if index.contains_key(id) {
                let i = index[id];
                match self.place@[i as int] {
                    Place::Bucket(l, s) => {
                        assert(rings[l][s].contains(i));
                        let p = choose|p: int| 0 <= p < rings[l][s].len() && rings[l][s][p] == i;
                        let k = lemma_timers_to(arena, index, rings[l][s], p);
                        assert(m.seat(l, s, k));
                    },
                    _ => {
                        assert(Set::<usize>::empty().contains(i));
                    },
                }
            }
            if m.waits(id) {
                let (l, s, k) = choose|l: int, s: int, k: int| #[trigger]
                    m.seat(l, s, k) && m.lanes[l][s][k].id == id;
                let p = lemma_timers_from(arena, index, rings[l][s], k);
            }
        }
    }
}

} // verus!
