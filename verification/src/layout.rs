//! What the wheel holds where, in plain buckets, slots and entries.

use std::hash::Hash;
use std::time::Duration;

use vstd::prelude::*;

use crate::arena::{
    drained, filed, filed_total, filed_upto, is_current, is_spent, is_waiting, no_rings, timer_of,
    timers, trickled, Rings, TaskEntry,
};
use crate::model::{due_ids, level_below, level_for, level_slot, Timer, WheelModel};
use crate::promises::{law_fitting, law_geometry};
use crate::time::duration_millis;
use crate::wheel::Wheel;

verus! {

/// The ids of the timers of a bucket that have expired by `now`, in order.
pub open spec fn lapsed<T>(bucket: Seq<Timer<T>>, now: int) -> Seq<T> {
    bucket.filter(|t: Timer<T>| t.expire <= now).map_values(|t: Timer<T>| t.id)
}

/// The timers of a bucket that are not of `id`, in order.
pub open spec fn not_of<T>(bucket: Seq<Timer<T>>, id: T) -> Seq<Timer<T>> {
    bucket.filter(|t: Timer<T>| t.id != id)
}

/// The ids of the timers of a bucket, in order.
pub open spec fn ids_of<T>(bucket: Seq<Timer<T>>) -> Seq<T> {
    bucket.map_values(|t: Timer<T>| t.id)
}

/// What has lapsed of two buckets, one behind the other.
proof fn lemma_lapsed_add<T>(a: Seq<Timer<T>>, b: Seq<Timer<T>>, now: int)
    ensures
        lapsed(a + b, now) == lapsed(a, now) + lapsed(b, now),
{
    let due = |t: Timer<T>| t.expire <= now;
    Seq::filter_distributes_over_add(a, b, due);
    assert(lapsed(a + b, now) =~= lapsed(a, now) + lapsed(b, now));
}

/// Nothing has lapsed of what is still to come.
proof fn lemma_lapsed_none<T>(batch: Seq<Timer<T>>, goes: spec_fn(Timer<T>) -> bool, now: int)
    requires
        forall|t: Timer<T>| #[trigger] goes(t) ==> t.expire > now,
    ensures
        lapsed(batch.filter(goes), now) == Seq::<T>::empty(),
{
    let due = |t: Timer<T>| t.expire <= now;
    let rest = batch.filter(goes).filter(due);
    if rest.len() > 0 {
        let t = rest[0];
        assert(rest.contains(t));
        crate::laws::lemma_filter(batch.filter(goes), due, t);
        crate::laws::lemma_filter(batch, goes, t);
    }
    assert(lapsed(batch.filter(goes), now) =~= Seq::empty());
}

/// What a sweep of one level does to each bucket: the one under the hand is emptied, and what
/// of it is still to come goes behind what is in the buckets of the level below, in order.
pub proof fn law_swept<T>(m: WheelModel<T>, level: int, l: int, s: int)
    requires
        m.shaped(),
        0 <= level < 3,
        0 <= l < 3,
        0 <= s < 64,
    ensures
        ({
            let period = if level == 0 {
                1int
            } else if level == 1 {
                64
            } else {
                4096
            };
            let hand = (m.now / period) % 64;
            let below = if level > 0 {
                level - 1
            } else {
                0
            };
            let width = if below == 0 {
                1int
            } else {
                64
            };
            let kept = if l == level && s == hand {
                Seq::empty()
            } else {
                m.lanes[l][s]
            };
            &&& m.swept(level).now == m.now
            &&& m.swept(level).shaped()
            &&& m.swept(level).lanes[l][s] == if l == below {
                kept + m.lanes[level][hand].filter(
                    |t: Timer<T>| t.expire > m.now && (t.expire / width) % 64 == s,
                )
            } else {
                kept
            }
        }),
{
    law_geometry(m.now, m.now);
    crate::laws::lemma_swept_lane(m, level, l, s);
    let below = level_below(level);
    let goes = |t: Timer<T>| t.expire > m.now && level_slot(below, t.expire) == s;
    let width = if below == 0 {
        1int
    } else {
        64
    };
    let plain = |t: Timer<T>| t.expire > m.now && (t.expire / width) % 64 == s;
    assert forall|t: Timer<T>| #[trigger] goes(t) == plain(t) by {
        law_geometry(m.now, t.expire);
        if below == 0 {
            assert(t.expire / width == t.expire);
        }
    }
    assert(goes =~= plain);
    if level == 0 {
        assert(m.now / 1 == m.now);
    }
}

/// One base tick: the clock moves on by one, and the levels whose turn it is are swept, from
/// the top down.
pub proof fn law_advanced<T>(m: WheelModel<T>)
    ensures
        ({
            let n = m.now + 1;
            let a = WheelModel { now: n, lanes: m.lanes };
            let b = if n % 4096 == 0 {
                a.swept(2)
            } else {
                a
            };
            let c = if n % 64 == 0 {
                b.swept(1)
            } else {
                b
            };
            m.advanced() == c.swept(0)
        }),
{
    reveal_with_fuel(WheelModel::swept_upto, 4);
    law_geometry(m.now, m.now);
    let n = m.now + 1;
    let a = WheelModel { now: n, lanes: m.lanes };
    assert(m.ticked() == a);
    assert(a.swept(2).now == n && a.swept(1).now == n);
    assert(n % 1 == 0);
}

/// The ids that a base tick hands out: those that have expired of the bucket of each level
/// under the hand, the lowest level first, each in the order in which it joined its bucket.
pub proof fn law_advance_order<T>(m: WheelModel<T>)
    requires
        m.shaped(),
    ensures
        ({
            let n = m.now + 1;
            let low = lapsed(m.lanes[0][n % 64], n);
            let middle = if n % 64 == 0 {
                lapsed(m.lanes[1][(n / 64) % 64], n)
            } else {
                Seq::empty()
            };
            let high = if n % 4096 == 0 {
                lapsed(m.lanes[2][(n / 4096) % 64], n)
            } else {
                Seq::empty()
            };
            m.advance_ids() == low + middle + high
        }),
{
    reveal_with_fuel(WheelModel::swept_upto, 4);
    reveal_with_fuel(WheelModel::expired_upto, 4);
    let n = m.now + 1;
    law_geometry(n, n);
    let a = m.ticked();
    let b = a.swept_upto(1);
    let c = a.swept_upto(2);
    assert(a.lanes == m.lanes);
    let s1 = (n / 64) % 64;
    let s0 = n % 64;
    assert(n % 1 == 0);
    if n % 4096 == 0 {
        law_swept(a, 2, 1, s1);
        law_swept(a, 2, 0, s0);
        let goes = |t: Timer<T>| t.expire > a.now && (t.expire / 64) % 64 == s1;
        let more = a.lanes[2][(n / 4096) % 64].filter(goes);
        lemma_lapsed_none(a.lanes[2][(n / 4096) % 64], goes, n);
        lemma_lapsed_add(m.lanes[1][s1], more, n);
        assert(b.lanes[1][s1] == m.lanes[1][s1] + more);
        assert(lapsed(b.lanes[1][s1], n) =~= lapsed(m.lanes[1][s1], n));
        assert(b.lanes[0][s0] == m.lanes[0][s0]);
    }
    assert(b.shaped());
    assert(lapsed(b.lanes[1][s1], n) == lapsed(m.lanes[1][s1], n));
    if n % 64 == 0 {
        law_swept(b, 1, 0, s0);
        let goes = |t: Timer<T>| t.expire > b.now && (t.expire / 1) % 64 == s0;
        let more = b.lanes[1][s1].filter(goes);
        lemma_lapsed_none(b.lanes[1][s1], goes, n);
        lemma_lapsed_add(m.lanes[0][s0], more, n);
        assert(c.lanes[0][s0] == m.lanes[0][s0] + more);
        assert(lapsed(c.lanes[0][s0], n) =~= lapsed(m.lanes[0][s0], n));
    }
    assert(lapsed(c.lanes[0][s0], n) == lapsed(m.lanes[0][s0], n));
    assert(a.expired_upto(1) =~= if n % 4096 == 0 {
        lapsed(m.lanes[2][(n / 4096) % 64], n)
    } else {
        Seq::empty()
    });
    let low = lapsed(m.lanes[0][s0], n);
    let middle = if n % 64 == 0 {
        lapsed(m.lanes[1][s1], n)
    } else {
        Seq::empty()
    };
    assert(a.expired_upto(2) =~= middle + a.expired_upto(1));
    assert(a.expired_upto(3) =~= low + a.expired_upto(2));
    assert(m.advance_ids() =~= low + middle + a.expired_upto(1));
}

/// What a schedule does to each bucket: earlier timers of the id go, and the new one goes
/// behind the others of its bucket.  A delay of less than 64 ticks belongs to the lowest
/// level, one of less than 4096 to the middle one, a longer one to the highest.
pub proof fn law_scheduled_buckets<T>(m: WheelModel<T>, id: T, delay: int, l: int, s: int)
    requires
        m.shaped(),
        0 <= l < 3,
        0 <= s < 64,
    ensures
        ({
            let expire = m.now + delay;
            let here = if delay < 64 {
                l == 0 && s == expire % 64
            } else if delay < 4096 {
                l == 1 && s == (expire / 64) % 64
            } else {
                l == 2 && s == (expire / 4096) % 64
            };
            &&& m.scheduled(id, delay).now == m.now
            &&& m.scheduled(id, delay).shaped()
            &&& m.scheduled(id, delay).lanes[l][s] == if here {
                not_of(m.lanes[l][s], id).push(Timer { id, expire })
            } else {
                not_of(m.lanes[l][s], id)
            }
            &&& m.without(id).now == m.now
            &&& m.without(id).shaped()
            &&& m.without(id).lanes[l][s] == not_of(m.lanes[l][s], id)
        }),
{
    law_geometry(m.now, m.now + delay);
    let drop = |t: Timer<T>| t.id != id;
    assert(m.without(id).lanes[l][s] == m.lanes[l][s].filter(drop));
}

/// What is in the wheel, bucket by bucket: an id waits if some bucket has a timer of it, and it
/// waits for the tick that the timer says.
pub proof fn law_waits<T>(m: WheelModel<T>, l: int, s: int, k: int, id: T)
    requires
        m.wf(),
    ensures
        0 <= l < 3 && 0 <= s < 64 && 0 <= k < m.lanes[l][s].len() ==> {
            let t = m.lanes[l][s][k];
            &&& m.waits(t.id)
            &&& m.due_at(t.id, t.expire)
            &&& t.expire > m.now
        },
        (forall|l: int, s: int, k: int|
            0 <= l < 3 && 0 <= s < 64 && 0 <= k < m.lanes[l][s].len() ==> (
            #[trigger] m.lanes[l][s][k]).id != id) ==> !m.waits(id) && forall|due: int|
            !#[trigger] m.due_at(id, due),
{
    if 0 <= l < 3 && 0 <= s < 64 && 0 <= k < m.lanes[l][s].len() {
        let t = m.lanes[l][s][k];
        assert(m.seat(l, s, k));
        assert(m.lanes[l][s].contains(t));
        assert(m.holds(l, t));
        assert(m.due_at(t.id, t.expire));
        crate::laws::law_due_once(m, t.id);
    }
    if forall|l: int, s: int, k: int|
        0 <= l < 3 && 0 <= s < 64 && 0 <= k < m.lanes[l][s].len() ==> (
        #[trigger] m.lanes[l][s][k]).id != id {
        if m.waits(id) {
            let (l, s, k) = choose|l: int, s: int, k: int| #[trigger]
                m.seat(l, s, k) && m.lanes[l][s][k].id == id;
            assert(m.lanes[l][s][k].id != id);
        }
        crate::laws::law_due_once(m, id);
    }
}

/// The waiting ids are those that wait.
pub proof fn law_waiting<T>(m: WheelModel<T>, id: T)
    ensures
        m.waiting().contains(id) <==> m.waits(id),
{
}

/// Draining the wheel goes from bucket to bucket, the lowest level first, and empties all.
pub proof fn law_all_ids<T>(m: WheelModel<T>, l: int, s: int)
    requires
        0 <= l < 3,
        0 <= s < 64,
    ensures
        m.ids_upto(0) == Seq::<T>::empty(),
        m.ids_upto((l * 64 + s + 1) as nat) == m.ids_upto((l * 64 + s) as nat) + ids_of(
            m.lanes[l][s],
        ),
        m.all_ids() == m.ids_upto(192),
        m.cleared().now == m.now,
        m.cleared().lanes[l][s] == Seq::<Timer<T>>::empty(),
{
    let b = l * 64 + s;
    assert(b / 64 == l && b % 64 == s);
    assert(ids_of(m.lanes[l][s]) =~= m.lanes[l][s].map_values(|t: Timer<T>| t.id));
}

/// Ticks in a row are ticks one by one.
pub proof fn law_after<T>(m: WheelModel<T>, n: nat)
    ensures
        m.after(0) == m,
        m.after(n + 1) == m.after(n).advanced(),
        m.handed_out(n + 1) == m.after(n).advance_ids(),
        m.handed_out_upto(0) == Seq::<T>::empty(),
        m.handed_out_upto(n + 1) == m.handed_out_upto(n) + m.after(n).advance_ids(),
{
}

/// The arena slots of `bucket` that are the current ones of their ids, in order.
pub open spec fn currents<T>(
    entries: Seq<TaskEntry<T>>,
    index: Map<T, usize>,
    bucket: Seq<usize>,
) -> Seq<usize> {
    bucket.filter(
        |i: usize|
            i < entries.len() && index.contains_key(entries[i as int].id)
                && index[entries[i as int].id] == i,
    )
}

/// The timers of a bucket are its current slots, without stale copies, in order.
pub proof fn law_timers<T>(entries: Seq<TaskEntry<T>>, index: Map<T, usize>, bucket: Seq<usize>)
    ensures
        timers(entries, index, bucket) == currents(entries, index, bucket).map_values(
            |i: usize|
                Timer { id: entries[i as int].id, expire: entries[i as int].expire_tick as int },
        ),
    decreases bucket.len(),
{
    reveal(Seq::filter);
    let plain = |i: usize|
        Timer { id: entries[i as int].id, expire: entries[i as int].expire_tick as int };
    if bucket.len() > 0 {
        law_timers(entries, index, bucket.drop_last());
        assert(timers(entries, index, bucket) =~= currents(entries, index, bucket).map_values(
            plain,
        ));
    } else {
        assert(timers(entries, index, bucket) =~= currents(entries, index, bucket).map_values(
            plain,
        ));
    }
}

/// What processing a drained bucket does: the current slots that have expired are handed out,
/// in order; the current ones that have not go behind the others of their bucket of the level
/// below; all but these are free.
pub proof fn law_processed<T>(
    entries: Seq<TaskEntry<T>>,
    index: Map<T, usize>,
    rings: Rings,
    now: int,
    level: int,
    batch: Seq<usize>,
    l: int,
    s: int,
    i: usize,
)
    requires
        0 <= level < 3,
        rings.len() == 3,
        rings[0].len() == 64 && rings[1].len() == 64 && rings[2].len() == 64,
        0 <= l < 3,
        0 <= s < 64,
    ensures
        ({
            let below = if level > 0 {
                level - 1
            } else {
                0
            };
            let width = if below == 0 {
                1int
            } else {
                64
            };
            let waits = |i: usize|
                i < entries.len() && index.contains_key(entries[i as int].id)
                    && index[entries[i as int].id] == i && entries[i as int].expire_tick > now;
            &&& due_ids(timers(entries, index, batch), now) == currents(
                entries,
                index,
                batch,
            ).filter(|i: usize| entries[i as int].expire_tick <= now).map_values(
                |i: usize| entries[i as int].id,
            )
            &&& trickled(rings, entries, index, now, level, batch)[l][s] == if l == below {
                rings[l][s] + batch.filter(
                    |i: usize| waits(i) && (entries[i as int].expire_tick as int / width) % 64 == s,
                )
            } else {
                rings[l][s]
            }
            &&& is_spent(entries, index, now, i) <==> i < entries.len() && !waits(i)
        }),
{
    let below = level_below(level);
    let width = if below == 0 {
        1int
    } else {
        64
    };
    let waits = |i: usize|
        i < entries.len() && index.contains_key(entries[i as int].id)
            && index[entries[i as int].id] == i && entries[i as int].expire_tick > now;
    let plain = |i: usize| waits(i) && (entries[i as int].expire_tick as int / width) % 64 == s;
    let goes = |i: usize|
        is_waiting(entries, index, now, i) && level_slot(
            below,
            entries[i as int].expire_tick as int,
        ) == s;
    assert forall|i: usize| #[trigger] goes(i) == plain(i) by {
        law_geometry(now, entries[i as int].expire_tick as int);
        if below == 0 {
            assert(entries[i as int].expire_tick as int / width == entries[i as int].expire_tick);
        }
    }
    assert(goes =~= plain);
    lemma_due_plain(entries, index, now, batch);
}

proof fn lemma_due_plain<T>(
    entries: Seq<TaskEntry<T>>,
    index: Map<T, usize>,
    now: int,
    batch: Seq<usize>,
)
    ensures
        due_ids(timers(entries, index, batch), now) == currents(entries, index, batch).filter(
            |i: usize| entries[i as int].expire_tick <= now,
        ).map_values(|i: usize| entries[i as int].id),
    decreases batch.len(),
{
    reveal(Seq::filter);
    let due = |i: usize| entries[i as int].expire_tick <= now;
    let name = |i: usize| entries[i as int].id;
    let late = |t: Timer<T>| t.expire <= now;
    let ids = due_ids(timers(entries, index, batch), now);
    if batch.len() > 0 {
        let rest = batch.drop_last();
        let i = batch.last();
        lemma_due_plain(entries, index, now, rest);
        let slots = currents(entries, index, rest);
        if is_current(entries, index, i) {
            crate::model::lemma_due_push(
                timers(entries, index, rest),
                now,
                timer_of(entries[i as int]),
            );
            slots.lemma_filter_push(i, due);
            assert(currents(entries, index, batch) =~= slots.push(i));
            assert(ids =~= slots.push(i).filter(due).map_values(name));
        } else {
            assert(currents(entries, index, batch) =~= slots);
        }
    } else {
        assert(timers(entries, index, batch).filter(late) =~= Seq::empty());
        assert(ids =~= Seq::<T>::empty());
        assert(currents(entries, index, batch).filter(due).map_values(name) =~= Seq::empty());
    }
}

/// Filing, draining and counting buckets.
pub proof fn law_rings(rings: Rings, l: int, s: int, i: usize, l2: int, s2: int)
    requires
        rings.len() == 3,
        rings[0].len() == 64 && rings[1].len() == 64 && rings[2].len() == 64,
        0 <= l < 3,
        0 <= s < 64,
        0 <= l2 < 3,
        0 <= s2 < 64,
    ensures
        filed(rings, l, s, i)[l2][s2] == if l == l2 && s == s2 {
            rings[l][s].push(i)
        } else {
            rings[l2][s2]
        },
        drained(rings, l, s)[l2][s2] == if l == l2 && s == s2 {
            Seq::<usize>::empty()
        } else {
            rings[l2][s2]
        },
        no_rings()[l][s] == Seq::<usize>::empty(),
        filed_upto(rings, 0) == 0,
        filed_upto(rings, (l * 64 + s + 1) as nat) == filed_upto(rings, (l * 64 + s) as nat)
            + rings[l][s].len(),
        filed_total(rings) == filed_upto(rings, 192),
{
    let b = l * 64 + s;
    assert(b / 64 == l && b % 64 == s);
}

/// What it means that a slot has been taken for an id: it was the last free one, or it is new,
/// the id leads to it, and it holds the entry of the id.
pub proof fn law_took_slot<T: Eq + Hash + Clone>(
    before: &Wheel<T>,
    after: &Wheel<T>,
    id: T,
    expire_tick: u64,
)
    requires
        before.sane(),
        after.took_slot(before, id, expire_tick),
    ensures
        ({
            let free = before.free_list();
            let slot = after.index()[id];
            &&& slot == before.next_slot()
            &&& after.index() == before.index().insert(id, slot)
            &&& after.entries()[slot as int].id == id
            &&& after.entries()[slot as int].expire_tick == expire_tick
            &&& after.entries()[slot as int].generation == before.next_generation(id)
            &&& !before.index().contains_key(id) ==> before.next_generation(id) == 0
            &&& before.index().contains_key(id) ==> {
                let old = before.entries()[before.index()[id] as int].generation;
                before.next_generation(id) == if old == u64::MAX {
                    0
                } else {
                    old + 1
                }
            }
            &&& free.len() > 0 ==> slot == free[free.len() - 1] && after.free_list() == free.take(
                free.len() - 1,
            ) && after.entries().len() == before.entries().len()
            &&& free.len() == 0 ==> slot == before.entries().len() && after.free_list().len() == 0
                && after.entries().len() == before.entries().len() + 1
            &&& forall|i: int|
                0 <= i < before.entries().len() && i != slot ==> #[trigger] after.entries()[i]
                    == before.entries()[i]
        }),
{
    before.law_sane();
    if before.free_list().len() > 0 {
        let last = before.free_list().len() - 1;
        assert(before.free_list()[last] < before.entries().len());
        assert(before.free_list().drop_last() =~= before.free_list().take(last));
    }
}

/// Where a slot is filed: behind the others of the bucket that its expiry belongs in.  A delay
/// of less than 64 ticks belongs to the lowest level, one of less than 4096 to the middle one,
/// a longer one to the highest.
pub proof fn law_rings_with<T: Eq + Hash + Clone>(
    before: &Wheel<T>,
    expire_tick: u64,
    idx: usize,
    l: int,
    s: int,
)
    requires
        before.sane(),
        0 <= l < 3,
        0 <= s < 64,
    ensures
        ({
            let delay = expire_tick - before.now();
            let here = if delay < 64 {
                l == 0 && s == expire_tick as int % 64
            } else if delay < 4096 {
                l == 1 && s == (expire_tick as int / 64) % 64
            } else {
                l == 2 && s == (expire_tick as int / 4096) % 64
            };
            Wheel::rings_with(before, expire_tick, idx)[l][s] == if here {
                before.rings()[l][s].push(idx)
            } else {
                before.rings()[l][s]
            }
        }),
{
    before.law_sane();
    law_geometry(before.now() as int, expire_tick as int);
    let level = level_for(before.now() as int, expire_tick as int);
    law_rings(before.rings(), level, level_slot(level, expire_tick as int), idx, l, s);
}

/// What it means that an id has been booked: a slot has been taken for it and filed, and every
/// other id keeps its slot and its entry.
pub proof fn law_booked<T: Eq + Hash + Clone>(
    before: &Wheel<T>,
    after: &Wheel<T>,
    id: T,
    expire_tick: u64,
    other: T,
)
    requires
        after.booked(before, id, expire_tick),
    ensures
        after.took_slot(before, id, expire_tick),
        after.rings() == Wheel::rings_with(before, expire_tick, before.next_slot()),
        other != id && before.index().contains_key(other) ==> after.index().contains_key(other)
            && after.index()[other] == before.index()[other]
            && after.entries()[after.index()[other] as int]
            == before.entries()[before.index()[other] as int],
{
}

/// The clock reaches the end of a timeout exactly if the tick at which it is over is a `u64`,
/// and the clock is not less than 4096 ticks from its end.
pub proof fn law_reaches<T: Eq + Hash + Clone>(wheel: &Wheel<T>, timeout: Duration)
    requires
        wheel.tick_len() >= 1,
    ensures
        ({
            let ms = duration_millis(timeout) as int;
            let t = wheel.tick_len() as int;
            let room = 0xffff_ffff_ffff_ffff - wheel.now();
            &&& room < 4096 ==> !wheel.reaches(timeout)
            &&& room >= 4096 && ms < (room + 1) * t ==> wheel.reaches(timeout)
            &&& (room + 1) * t <= ms < (u64::MAX + 1) * t ==> !wheel.reaches(timeout)
            &&& ms >= (u64::MAX + 1) * t ==> (wheel.reaches(timeout) <==> wheel.now() == 0)
        }),
{
    law_fitting(wheel.now() as int, duration_millis(timeout) as int, wheel.tick_len() as int);
}

/// What it means that a wheel has been relieved of ids: they are no longer tracked and their
/// slots are free, what was free still is, and all else stays.
pub proof fn law_relieved<T: Eq + Hash + Clone>(
    before: &Wheel<T>,
    after: &Wheel<T>,
    expired: Seq<T>,
    id: T,
)
    requires
        after.relieved(before, expired),
    ensures
        after.entries() == before.entries(),
        after.index().contains_key(id) <==> before.index().contains_key(id) && !expired.contains(
            id,
        ),
        after.index().contains_key(id) ==> after.index()[id] == before.index()[id],
        expired.contains(id) ==> before.index().contains_key(id) && after.free_list().contains(
            before.index()[id],
        ),
        after.free_list().len() >= before.free_list().len(),
        after.free_list().take(before.free_list().len() as int) == before.free_list(),
{
    assert(after.free_list().take(before.free_list().len() as int) =~= before.free_list());
}

/// The clock and the length of a tick are all that the same clock means.
pub proof fn law_same_clock<T: Eq + Hash + Clone>(before: &Wheel<T>, after: &Wheel<T>)
    requires
        after.same_clock(before),
    ensures
        after.now() == before.now(),
        after.tick_len() == before.tick_len(),
        after@.now == before@.now,
{
    after.lemma_now();
    before.lemma_now();
}

/// What the model of a wheel shows: its clock, and in each bucket the timers of the slots that
/// are filed there.
pub proof fn law_view<T: Eq + Hash + Clone>(wheel: &Wheel<T>, l: int, s: int)
    requires
        0 <= l < 3,
        0 <= s < 64,
    ensures
        wheel@.now == wheel.now(),
        wheel@.lanes.len() == 3,
        wheel@.lanes[l].len() == 64,
        wheel@.lanes[l][s] == currents(
            wheel.entries(),
            wheel.index(),
            wheel.rings()[l][s],
        ).map_values(
            |i: usize|
                Timer {
                    id: wheel.entries()[i as int].id,
                    expire: wheel.entries()[i as int].expire_tick as int,
                },
        ),
        forall|id: T| #[trigger]
            wheel.tracked_ids().contains(id) <==> wheel.index().contains_key(id),
{
    wheel.lemma_now();
    wheel.lemma_lanes(l, s);
    law_timers(wheel.entries(), wheel.index(), wheel.rings()[l][s]);
}

} // verus!
