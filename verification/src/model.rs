//! The wheel as mathematics: three rings of buckets of waiting timers.

use vstd::prelude::*;

use crate::config::{LV0_SLOTS, LV0_TICK, LV1_TICK, LV2_TICK};
use crate::level::slot_index;

verus! {

/// A task that waits in the wheel for tick `expire`.
pub struct Timer<T> {
    pub id: T,
    pub expire: int,
}

/// What a wheel holds: its clock, and for each level and bucket the waiting timers, oldest
/// first.
#[verifier::ext_equal]
pub struct WheelModel<T> {
    pub now: int,
    pub lanes: Seq<Seq<Seq<Timer<T>>>>,
}

/// Base ticks between two advances of `level`.
pub open spec fn level_period(level: int) -> int {
    if level == 0 {
        LV0_TICK as int
    } else if level == 1 {
        LV1_TICK as int
    } else {
        LV2_TICK as int
    }
}

/// The bucket of `level` that `tick` falls in.
pub open spec fn level_slot(level: int, tick: int) -> int {
    slot_index(tick, level_period(level), LV0_SLOTS as int)
}

/// The highest level whose granularity is at most the delay.
pub open spec fn level_for(now: int, expire: int) -> int {
    if expire >= now + LV2_TICK {
        2
    } else if expire >= now + LV1_TICK {
        1
    } else {
        0
    }
}

/// Where a timer of `level` that is not due yet goes when its bucket is drained.
pub open spec fn level_below(level: int) -> int {
    if level > 0 {
        level - 1
    } else {
        0
    }
}

/// The ids of the timers of `batch` that have expired by `now`, in order.
pub open spec fn due_ids<T>(batch: Seq<Timer<T>>, now: int) -> Seq<T> {
    batch.filter(|t: Timer<T>| t.expire <= now).map_values(|t: Timer<T>| t.id)
}

impl<T> WheelModel<T> {
    /// No timer waits at tick zero.
    pub open spec fn fresh() -> Self {
        WheelModel {
            now: 0,
            lanes: Seq::new(
                3,
                |l: int| Seq::new(LV0_SLOTS as nat, |s: int| Seq::<Timer<T>>::empty()),
            ),
        }
    }

    /// Three levels of 64 buckets.
    pub open spec fn shaped(self) -> bool {
        &&& self.lanes.len() == 3
        &&& forall|l: int| 0 <= l < 3 ==> (#[trigger] self.lanes[l]).len() == LV0_SLOTS
    }

    /// Every timer of `id` is taken out.
    pub open spec fn without(self, id: T) -> Self {
        WheelModel {
            now: self.now,
            lanes: self.lanes.map_values(
                |ring: Seq<Seq<Timer<T>>>|
                    ring.map_values(
                        |lane: Seq<Timer<T>>| lane.filter(|t: Timer<T>| t.id != id),
                    ),
            ),
        }
    }

    /// `timer` joins the bucket of `level` that its expiry falls in, behind the others.
    pub open spec fn placed(self, level: int, timer: Timer<T>) -> Self {
        let slot = level_slot(level, timer.expire);
        WheelModel {
            now: self.now,
            lanes: self.lanes.update(
                level,
                self.lanes[level].update(slot, self.lanes[level][slot].push(timer)),
            ),
        }
    }

    /// `id` waits for `delay` ticks from now, and for nothing else.
    pub open spec fn scheduled(self, id: T, delay: int) -> Self {
        let expire = self.now + delay;
        self.without(id).placed(level_for(self.now, expire), Timer { id, expire })
    }

    /// One bucket is emptied.
    pub open spec fn emptied(self, level: int, slot: int) -> Self {
        WheelModel {
            now: self.now,
            lanes: self.lanes.update(level, self.lanes[level].update(slot, Seq::empty())),
        }
    }

    /// The timers of `batch`, drained from `level`, that are not due yet join the buckets of
    /// the level below, in order.
    pub open spec fn cascaded(self, level: int, batch: Seq<Timer<T>>) -> Self {
        let below = level_below(level);
        WheelModel {
            now: self.now,
            lanes: self.lanes.update(
                below,
                self.lanes[below].map(
                    |slot: int, lane: Seq<Timer<T>>|
                        lane + batch.filter(
                            |t: Timer<T>|
                                t.expire > self.now && level_slot(below, t.expire) == slot,
                        ),
                ),
            ),
        }
    }

    /// The bucket of `level` under the hand.
    pub open spec fn hand(self, level: int) -> Seq<Timer<T>> {
        self.lanes[level][level_slot(level, self.now)]
    }

    /// The bucket of `level` under the hand is drained, and what is not due yet cascades.
    pub open spec fn swept(self, level: int) -> Self {
        self.emptied(level, level_slot(level, self.now)).cascaded(level, self.hand(level))
    }

    /// The hand of `level` moves on to a new bucket at this tick.
    pub open spec fn turns(self, level: int) -> bool {
        self.now % level_period(level) == 0
    }

    /// The state after the `levels` highest levels have been swept at this tick, from the top
    /// down.
    pub open spec fn swept_upto(self, levels: nat) -> Self
        decreases levels,
    {
        if levels == 0 {
            self
        } else {
            let level = 3 - levels;
            let before = self.swept_upto((levels - 1) as nat);
            if before.turns(level) {
                before.swept(level)
            } else {
                before
            }
        }
    }

    /// The ids that expire while the `levels` highest levels are swept at this tick, those of
    /// the lowest level first.
    pub open spec fn expired_upto(self, levels: nat) -> Seq<T>
        decreases levels,
    {
        if levels == 0 {
            Seq::empty()
        } else {
            let level = 3 - levels;
            let before = self.swept_upto((levels - 1) as nat);
            if before.turns(level) {
                due_ids(before.hand(level), before.now) + self.expired_upto((levels - 1) as nat)
            } else {
                self.expired_upto((levels - 1) as nat)
            }
        }
    }

    /// A timer waits at position `k` of bucket `s` of level `l`.
    pub open spec fn seat(self, l: int, s: int, k: int) -> bool {
        &&& 0 <= l < 3
        &&& 0 <= s < LV0_SLOTS
        &&& 0 <= k < self.lanes[l][s].len()
    }

    /// `id` waits in the wheel.
    pub open spec fn waits(self, id: T) -> bool {
        exists|l: int, s: int, k: int| #[trigger]
            self.seat(l, s, k) && self.lanes[l][s][k].id == id
    }

    /// No id waits twice.
    pub open spec fn distinct(self) -> bool {
        forall|l: int, s: int, k: int, l2: int, s2: int, k2: int|
            #![trigger self.seat(l, s, k), self.seat(l2, s2, k2)]
            self.seat(l, s, k) && self.seat(l2, s2, k2) && self.lanes[l][s][k].id
                == self.lanes[l2][s2][k2].id ==> l == l2 && s == s2 && k == k2
    }

    /// Every timer waits in the bucket that its expiry falls in.
    pub open spec fn well_placed(self) -> bool {
        forall|l: int, s: int, k: int| #[trigger]
            self.seat(l, s, k) ==> s == level_slot(l, self.lanes[l][s][k].expire)
    }

    /// Every timer waits once, in the bucket that its expiry falls in.
    pub open spec fn settled(self) -> bool {
        &&& self.shaped()
        &&& self.distinct()
        &&& self.well_placed()
    }

    /// The hand of every level has yet to reach the turn that the expiry of each timer of
    /// the level falls in.
    pub open spec fn timely(self) -> bool {
        forall|l: int, s: int, k: int| #[trigger]
            self.seat(l, s, k) ==> self.lanes[l][s][k].expire / level_period(l) > self.now
                / level_period(l)
    }

    /// The model of a wheel that is in order.
    pub open spec fn wf(self) -> bool {
        &&& self.settled()
        &&& self.timely()
    }

    /// The ids in the first `n` buckets, counted from the first bucket of the lowest level.
    pub open spec fn ids_upto(self, n: nat) -> Seq<T>
        decreases n,
    {
        if n == 0 {
            Seq::empty()
        } else {
            let b = n - 1;
            self.ids_upto(b as nat) + self.lanes[b / LV0_SLOTS as int][b % LV0_SLOTS as int].map_values(
                |t: Timer<T>| t.id,
            )
        }
    }

    /// All ids that wait, from the first bucket of the lowest level to the last of the
    /// highest.
    pub open spec fn all_ids(self) -> Seq<T> {
        self.ids_upto((3 * LV0_SLOTS) as nat)
    }

    /// The first `n` buckets are emptied.
    pub open spec fn cleared_upto(self, n: int) -> Self {
        WheelModel {
            now: self.now,
            lanes: Seq::new(
                3,
                |l: int|
                    Seq::new(
                        LV0_SLOTS as nat,
                        |s: int|
                            if l * LV0_SLOTS + s < n {
                                Seq::empty()
                            } else {
                                self.lanes[l][s]
                            },
                    ),
            ),
        }
    }

    /// Nothing waits any more; the clock stands where it was.
    pub open spec fn cleared(self) -> Self {
        WheelModel { now: self.now, lanes: Self::fresh().lanes }
    }

    /// The clock moves on by one tick.
    pub open spec fn ticked(self) -> Self {
        WheelModel { now: self.now + 1, lanes: self.lanes }
    }

    /// One base tick passes.
    pub open spec fn advanced(self) -> Self {
        self.ticked().swept_upto(3)
    }

    /// The ids that the next base tick hands out.
    pub open spec fn advance_ids(self) -> Seq<T> {
        self.ticked().expired_upto(3)
    }

    /// The wheel after `n` ticks in which nothing is scheduled or taken out.
    pub open spec fn after(self, n: nat) -> Self
        decreases n,
    {
        if n == 0 {
            self
        } else {
            self.after((n - 1) as nat).advanced()
        }
    }

    /// The ids that the `n`th tick from now hands out, counted from one.
    pub open spec fn handed_out(self, n: nat) -> Seq<T> {
        self.after((n - 1) as nat).advance_ids()
    }

    /// The ids that the next `n` ticks hand out.
    pub open spec fn handed_out_upto(self, n: nat) -> Seq<T>
        decreases n,
    {
        if n == 0 {
            Seq::empty()
        } else {
            self.handed_out_upto((n - 1) as nat) + self.handed_out(n)
        }
    }

    /// The ids that wait.
    pub open spec fn waiting(self) -> Set<T> {
        Set::new(|id: T| self.waits(id))
    }
}

/// A timer that joins a batch is handed out last, if it is due.
pub(crate) proof fn lemma_due_push<T>(batch: Seq<Timer<T>>, now: int, t: Timer<T>)
    ensures
        due_ids(batch.push(t), now) == if t.expire <= now {
            due_ids(batch, now).push(t.id)
        } else {
            due_ids(batch, now)
        },
{
    batch.lemma_filter_push(t, |t: Timer<T>| t.expire <= now);
    assert(due_ids(batch.push(t), now) =~= if t.expire <= now {
        due_ids(batch, now).push(t.id)
    } else {
        due_ids(batch, now)
    });
}

/// An empty batch changes nothing.
pub(crate) proof fn lemma_cascaded_none<T>(m: WheelModel<T>, level: int)
    requires
        m.shaped(),
        0 <= level < 3,
    ensures
        m.cascaded(level, Seq::empty()) == m,
        due_ids(Seq::<Timer<T>>::empty(), m.now) == Seq::<T>::empty(),
{
    reveal_with_fuel(Seq::filter, 1);
    assert(m.cascaded(level, Seq::empty()).lanes =~~= m.lanes);
    assert(due_ids(Seq::<Timer<T>>::empty(), m.now) =~= Seq::<T>::empty());
}

/// A timer that joins a batch cascades last, if it is not due.
pub(crate) proof fn lemma_cascaded_push<T>(
    m: WheelModel<T>,
    level: int,
    batch: Seq<Timer<T>>,
    t: Timer<T>,
)
    requires
        m.shaped(),
        0 <= level < 3,
    ensures
        m.cascaded(level, batch).shaped(),
        m.cascaded(level, batch.push(t)) == if t.expire > m.now {
            m.cascaded(level, batch).placed(level_below(level), t)
        } else {
            m.cascaded(level, batch)
        },
{
    let below = level_below(level);
    let after = m.cascaded(level, batch.push(t));
    let target = if t.expire > m.now {
        m.cascaded(level, batch).placed(below, t)
    } else {
        m.cascaded(level, batch)
    };
    assert forall|slot: int| 0 <= slot < LV0_SLOTS implies #[trigger] after.lanes[below][slot]
        == target.lanes[below][slot] by {
        let goes = |t: Timer<T>| t.expire > m.now && level_slot(below, t.expire) == slot;
        batch.lemma_filter_push(t, goes);
        assert(after.lanes[below][slot] == m.lanes[below][slot] + batch.push(t).filter(goes));
        assert(m.cascaded(level, batch).lanes[below][slot] == m.lanes[below][slot]
            + batch.filter(goes));
        assert(after.lanes[below][slot] =~= target.lanes[below][slot]);
    }
    assert(after.lanes[below] =~= target.lanes[below]);
    assert(after.lanes =~= target.lanes);
}

} // verus!
