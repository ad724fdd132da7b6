//! One ring of buckets.

use vstd::prelude::*;

verus! {

/// The bucket of a ring of `slots` buckets, each `period` ticks wide, that `tick` falls in.
pub open spec fn slot_index(tick: int, period: int, slots: int) -> int {
    (tick / period) % slots
}

/// One level of the hierarchical wheel: a ring of buckets of arena indices, which moves on
/// by one bucket every `tick_per_advance` base ticks.
pub struct Level {
    slots: Vec<Vec<usize>>,
    tick_per_advance: u64,
}

impl Level {
    /// The arena indices of each bucket, oldest first.
    pub closed spec fn buckets(&self) -> Seq<Seq<usize>> {
        Seq::new(self.slots@.len(), |i: int| self.slots@[i]@)
    }

    /// Base ticks between two advances.
    pub closed spec fn period(&self) -> u64 {
        self.tick_per_advance
    }

    /// There is a bucket, and time passes.
    pub open spec fn wf(&self) -> bool {
        &&& self.buckets().len() > 0
        &&& self.period() > 0
    }

    /// A ring of `slots` empty buckets.
    pub fn new(slots: usize, tick_per_advance: u64) -> (level: Self)
        ensures
            level.buckets() == Seq::new(slots as nat, |i: int| Seq::<usize>::empty()),
            level.period() == tick_per_advance,
    {
        let mut ring: Vec<Vec<usize>> = Vec::new();
        for i in 0..slots
            invariant
                ring@.len() == i,
                forall|j: int| 0 <= j < i ==> #[trigger] ring@[j]@ == Seq::<usize>::empty(),
        {
            ring.push(Vec::new());
        }
        let level = Level { slots: ring, tick_per_advance };
        assert(level.buckets() =~= Seq::new(slots as nat, |i: int| Seq::<usize>::empty()));
        level
    }

    /// The bucket for a task that expires at tick `expire`.
    pub fn slot_of(&self, expire: u64) -> (slot: usize)
        requires
            self.wf(),
        ensures
            slot < self.buckets().len(),
            slot == slot_index(expire as int, self.period() as int, self.buckets().len() as int),
    {
        ((expire / self.tick_per_advance) % (self.slots.len() as u64)) as usize
    }

    /// The bucket under the hand at `current_tick`.
    pub fn slot_now(&self, current_tick: u64) -> (slot: usize)
        requires
            self.wf(),
        ensures
            slot < self.buckets().len(),
            slot == slot_index(
                current_tick as int,
                self.period() as int,
                self.buckets().len() as int,
            ),
    {
        ((current_tick / self.tick_per_advance) % (self.slots.len() as u64)) as usize
    }

    /// Drain the bucket at the current tick position, returning all arena indices.
    pub fn drain(&mut self, current_tick: u64) -> (indices: Vec<usize>)
        requires
            old(self).wf(),
        ensures
            ({
                let slot = slot_index(
                    current_tick as int,
                    old(self).period() as int,
                    old(self).buckets().len() as int,
                );
                &&& indices@ == old(self).buckets()[slot]
                &&& final(self).buckets() == old(self).buckets().update(slot, Seq::empty())
            }),
            final(self).period() == old(self).period(),
            final(self).wf(),
    {
        let slot: usize = self.slot_now(current_tick);
        self.take(slot)
    }

    /// Empty bucket `slot`, returning all its arena indices.
    pub fn take(&mut self, slot: usize) -> (indices: Vec<usize>)
        requires
            old(self).wf(),
            slot < old(self).buckets().len(),
        ensures
            indices@ == old(self).buckets()[slot as int],
            final(self).buckets() == old(self).buckets().update(slot as int, Seq::empty()),
            final(self).period() == old(self).period(),
            final(self).wf(),
    {
        let mut indices: Vec<usize> = Vec::new();
        std::mem::swap(&mut self.slots[slot], &mut indices);
        assert(self.buckets() =~= old(self).buckets().update(slot as int, Seq::empty()));
        indices
    }

    /// Append `arena_idx` to the bucket for tick `expire`.
    pub fn push(&mut self, expire: u64, arena_idx: usize)
        requires
            old(self).wf(),
        ensures
            ({
                let slot = slot_index(
                    expire as int,
                    old(self).period() as int,
                    old(self).buckets().len() as int,
                );
                final(self).buckets() == old(self).buckets().update(
                    slot,
                    old(self).buckets()[slot].push(arena_idx),
                )
            }),
            final(self).period() == old(self).period(),
            final(self).wf(),
    {
        let slot: usize = self.slot_of(expire);
        self.slots[slot].push(arena_idx);
        assert(self.buckets() =~= old(self).buckets().update(
            slot as int,
            old(self).buckets()[slot as int].push(arena_idx),
        ));
    }
}

} // verus!
