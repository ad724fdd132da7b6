//! What holds of the wheel as a whole: who waits, and when each is handed out.

use vstd::prelude::*;

use crate::config::LV0_SLOTS;
use crate::model::{due_ids, level_below, level_for, level_period, level_slot, Timer, WheelModel};

verus! {

impl<T> WheelModel<T> {
    /// `timer` waits in level `l`, in the bucket that its expiry falls in.
    pub open spec fn holds(self, l: int, timer: Timer<T>) -> bool {
        &&& 0 <= l < 3
        &&& self.lanes[l][level_slot(l, timer.expire)].contains(timer)
    }

    /// `id` waits for tick `due`.
    pub open spec fn due_at(self, id: T, due: int) -> bool {
        exists|l: int, t: Timer<T>| #[trigger] self.holds(l, t) && t.id == id && t.expire == due
    }
}

/// No two timers of a bucket share an id.
spec fn unshared<T>(lane: Seq<Timer<T>>) -> bool {
    forall|k: int, k2: int|
        #![trigger lane[k], lane[k2]]
        0 <= k < lane.len() && 0 <= k2 < lane.len() && lane[k].id == lane[k2].id ==> k == k2
}

/// What a filter keeps.
pub(crate) proof fn lemma_filter<A>(s: Seq<A>, keep: spec_fn(A) -> bool, x: A)
    ensures
        s.filter(keep).contains(x) <==> s.contains(x) && keep(x),
{
    broadcast use vstd::seq_lib::group_filter_ensures;

    if s.contains(x) && keep(x) {
        let k = choose|k: int| 0 <= k < s.len() && s[k] == x;
        assert(s.filter(keep).contains(s[k]));
    }
    if s.filter(keep).contains(x) {
        s.lemma_filter_contains_rev(keep, x);
        let k = choose|k: int| 0 <= k < s.filter(keep).len() && s.filter(keep)[k] == x;
        assert(keep(s.filter(keep)[k]));
    }
}

/// A filter makes no id come twice.
proof fn lemma_filter_unshared<T>(s: Seq<Timer<T>>, keep: spec_fn(Timer<T>) -> bool)
    requires
        unshared(s),
    ensures
        unshared(s.filter(keep)),
    decreases s.len(),
{
    reveal(Seq::filter);
    if s.len() > 0 {
        let rest = s.drop_last();
        assert(unshared(rest));
        lemma_filter_unshared(rest, keep);
        let kept = rest.filter(keep);
        assert forall|k: int| 0 <= k < kept.len() implies (#[trigger] kept[k]).id
            != s.last().id by {
            assert(kept.contains(kept[k]));
            lemma_filter(rest, keep, kept[k]);
            let j = choose|j: int| 0 <= j < rest.len() && rest[j] == kept[k];
            assert(s[j] == kept[k]);
        }
    }
}

/// Two buckets without a shared id, one behind the other.
proof fn lemma_add_unshared<T>(s: Seq<Timer<T>>, t: Seq<Timer<T>>)
    requires
        unshared(s),
        unshared(t),
        forall|a: Timer<T>, b: Timer<T>| s.contains(a) && t.contains(b) ==> a.id != b.id,
    ensures
        unshared(s + t),
{
    let all = s + t;
    assert forall|k: int, k2: int|
        #![trigger all[k], all[k2]]
        0 <= k < all.len() && 0 <= k2 < all.len() && all[k].id == all[k2].id implies k == k2 by {
        if k < s.len() && k2 >= s.len() {
            assert(s.contains(all[k]) && t.contains(all[k2]));
        } else if k >= s.len() && k2 < s.len() {
            assert(s.contains(all[k2]) && t.contains(all[k]));
        }
    }
}

/// A model that is in order, in terms of buckets.
spec fn in_order<T>(m: WheelModel<T>) -> bool {
    &&& m.shaped()
    &&& forall|l: int, s: int|
        0 <= l < 3 && 0 <= s < LV0_SLOTS ==> unshared(#[trigger] m.lanes[l][s])
    &&& forall|l: int, s: int, t: Timer<T>|
        0 <= l < 3 && 0 <= s < LV0_SLOTS && #[trigger] m.lanes[l][s].contains(t) ==> s
            == level_slot(l, t.expire)
    &&& forall|l: int, t: Timer<T>, l2: int, t2: Timer<T>|
        #![trigger m.holds(l, t), m.holds(l2, t2)]
        m.holds(l, t) && m.holds(l2, t2) && t.id == t2.id ==> l == l2 && t == t2
}

/// The buckets of a level are numbered from zero.
proof fn lemma_slot_range(l: int, tick: int)
    ensures
        0 <= level_slot(l, tick) < LV0_SLOTS,
{
}

/// Both ways to say that a model is in order agree.
proof fn lemma_in_order<T>(m: WheelModel<T>)
    ensures
        m.settled() <==> in_order(m),
{
    if m.settled() {
        assert forall|l: int, s: int| 0 <= l < 3 && 0 <= s < LV0_SLOTS implies unshared(
            #[trigger] m.lanes[l][s],
        ) by {
            let lane = m.lanes[l][s];
            assert forall|k: int, k2: int|
                #![trigger lane[k], lane[k2]]
                0 <= k < lane.len() && 0 <= k2 < lane.len() && lane[k].id
                    == lane[k2].id implies k == k2 by {
                assert(m.seat(l, s, k) && m.seat(l, s, k2));
            }
        }
        assert forall|l: int, s: int, t: Timer<T>|
            0 <= l < 3 && 0 <= s < LV0_SLOTS && #[trigger] m.lanes[l][s].contains(t) implies s
            == level_slot(l, t.expire) by {
            let k = choose|k: int| 0 <= k < m.lanes[l][s].len() && m.lanes[l][s][k] == t;
            assert(m.seat(l, s, k));
        }
        assert forall|l: int, t: Timer<T>, l2: int, t2: Timer<T>|
            #![trigger m.holds(l, t), m.holds(l2, t2)]
            m.holds(l, t) && m.holds(l2, t2) && t.id == t2.id implies l == l2 && t == t2 by {
            lemma_slot_range(l, t.expire);
            lemma_slot_range(l2, t2.expire);
            let s = level_slot(l, t.expire);
            let s2 = level_slot(l2, t2.expire);
            let k = choose|k: int| 0 <= k < m.lanes[l][s].len() && m.lanes[l][s][k] == t;
            let k2 = choose|k: int| 0 <= k < m.lanes[l2][s2].len() && m.lanes[l2][s2][k] == t2;
            assert(m.seat(l, s, k) && m.seat(l2, s2, k2));
        }
    }
    if in_order(m) {
        assert forall|l: int, s: int, k: int| #[trigger] m.seat(l, s, k) implies s == level_slot(
            l,
            m.lanes[l][s][k].expire,
        ) by {
            assert(m.lanes[l][s].contains(m.lanes[l][s][k]));
        }
        assert forall|l: int, s: int, k: int, l2: int, s2: int, k2: int|
            #![trigger m.seat(l, s, k), m.seat(l2, s2, k2)]
            m.seat(l, s, k) && m.seat(l2, s2, k2) && m.lanes[l][s][k].id
                == m.lanes[l2][s2][k2].id implies l == l2 && s == s2 && k == k2 by {
            let t = m.lanes[l][s][k];
            let t2 = m.lanes[l2][s2][k2];
            assert(m.lanes[l][s].contains(t) && m.lanes[l2][s2].contains(t2));
            assert(m.holds(l, t) && m.holds(l2, t2));
            assert(unshared(m.lanes[l][s]));
        }
    }
}

/// An id waits exactly if the model holds a timer of it.
proof fn lemma_waits_holds<T>(m: WheelModel<T>, id: T)
    requires
        m.settled(),
    ensures
        m.waits(id) <==> exists|l: int, t: Timer<T>| #[trigger] m.holds(l, t) && t.id == id,
{
    if m.waits(id) {
        let (l, s, k) = choose|l: int, s: int, k: int| #[trigger]
            m.seat(l, s, k) && m.lanes[l][s][k].id == id;
        let t = m.lanes[l][s][k];
        assert(m.lanes[l][s].contains(t));
        assert(m.holds(l, t));
    }
    if exists|l: int, t: Timer<T>| #[trigger] m.holds(l, t) && t.id == id {
        let (l, t) = choose|l: int, t: Timer<T>| #[trigger] m.holds(l, t) && t.id == id;
        let s = level_slot(l, t.expire);
        lemma_slot_range(l, t.expire);
        let k = choose|k: int| 0 <= k < m.lanes[l][s].len() && m.lanes[l][s][k] == t;
        assert(m.seat(l, s, k));
    }
}

/// `timer` is in the bucket of `level` under the hand.
spec fn under_hand<T>(m: WheelModel<T>, level: int, timer: Timer<T>) -> bool {
    m.holds(level, timer) && level_slot(level, m.now) == level_slot(level, timer.expire)
}

/// Where a timer is after a sweep.
spec fn holds_swept<T>(m: WheelModel<T>, level: int, l: int, t: Timer<T>) -> bool {
    ||| m.holds(l, t) && !(l == level && under_hand(m, level, t))
    ||| l == level_below(level) && under_hand(m, level, t) && t.expire > m.now
}

/// The buckets after a sweep.
pub(crate) proof fn lemma_swept_lane<T>(m: WheelModel<T>, level: int, l: int, s: int)
    requires
        m.shaped(),
        0 <= level < 3,
        0 <= l < 3,
        0 <= s < LV0_SLOTS,
    ensures
        m.swept(level).shaped(),
        m.swept(level).lanes[l][s] == ({
            let kept = if l == level && s == level_slot(level, m.now) {
                Seq::empty()
            } else {
                m.lanes[l][s]
            };
            if l == level_below(level) {
                kept + m.hand(level).filter(
                    |t: Timer<T>| t.expire > m.now && level_slot(l, t.expire) == s,
                )
            } else {
                kept
            }
        }),
{
    lemma_slot_range(level, m.now);
}

/// A sweep moves the timers under the hand that are not due to the level below, drops those
/// that are due, and leaves the rest alone.
proof fn lemma_swept<T>(m: WheelModel<T>, level: int)
    requires
        in_order(m),
        0 <= level < 3,
    ensures
        in_order(m.swept(level)),
        m.swept(level).now == m.now,
        forall|l: int, t: Timer<T>|
            0 <= l < 3 ==> (#[trigger] m.swept(level).holds(l, t) <==> holds_swept(m, level, l, t)),
{
    let after = m.swept(level);
    let below = level_below(level);
    let hand = m.hand(level);
    lemma_slot_range(level, m.now);
    assert(unshared(hand));
    assert(after.shaped()) by {
        lemma_swept_lane(m, level, 0, 0);
    }
    assert forall|l: int, s: int, t: Timer<T>|
        0 <= l < 3 && 0 <= s < LV0_SLOTS && #[trigger] after.lanes[l][s].contains(t) implies s
        == level_slot(l, t.expire) && holds_swept(m, level, l, t) by {
        lemma_swept_lane(m, level, l, s);
        let goes = |t: Timer<T>| t.expire > m.now && level_slot(l, t.expire) == s;
        lemma_filter(hand, goes, t);
        if m.lanes[l][s].contains(t) {
            assert(m.holds(l, t));
        }
        if hand.contains(t) {
            assert(m.lanes[level][level_slot(level, m.now)].contains(t));
            assert(under_hand(m, level, t));
        }
        vstd::seq_lib::lemma_seq_concat_contains_all_elements(
            m.lanes[l][s],
            hand.filter(goes),
            t,
        );
        vstd::seq_lib::lemma_seq_concat_contains_all_elements(
            Seq::<Timer<T>>::empty(),
            hand.filter(goes),
            t,
        );
        if l == level && s == level_slot(level, m.now) {
            assert(!Seq::<Timer<T>>::empty().contains(t));
        }
    }
    assert forall|l: int, t: Timer<T>| 0 <= l < 3 implies (#[trigger] after.holds(l, t)
        <==> holds_swept(m, level, l, t)) by {
        let s = level_slot(l, t.expire);
        lemma_slot_range(l, t.expire);
        lemma_swept_lane(m, level, l, s);
        let goes = |t: Timer<T>| t.expire > m.now && level_slot(l, t.expire) == s;
        lemma_filter(hand, goes, t);
        vstd::seq_lib::lemma_seq_concat_contains_all_elements(
            m.lanes[l][s],
            hand.filter(goes),
            t,
        );
        vstd::seq_lib::lemma_seq_concat_contains_all_elements(
            Seq::<Timer<T>>::empty(),
            hand.filter(goes),
            t,
        );
    }
    assert forall|l: int, s: int| 0 <= l < 3 && 0 <= s < LV0_SLOTS implies unshared(
        #[trigger] after.lanes[l][s],
    ) by {
        lemma_swept_lane(m, level, l, s);
        let goes = |t: Timer<T>| t.expire > m.now && level_slot(l, t.expire) == s;
        let kept = if l == level && s == level_slot(level, m.now) {
            Seq::<Timer<T>>::empty()
        } else {
            m.lanes[l][s]
        };
        assert(unshared(m.lanes[l][s]));
        if l == below {
            lemma_filter_unshared(hand, goes);
            assert forall|a: Timer<T>, b: Timer<T>|
                kept.contains(a) && hand.filter(goes).contains(b) implies a.id != b.id by {
                lemma_filter(hand, goes, b);
                assert(m.lanes[l][s].contains(a));
                assert(m.lanes[level][level_slot(level, m.now)].contains(b));
                assert(m.holds(l, a) && m.holds(level, b));
            }
            lemma_add_unshared(kept, hand.filter(goes));
        }
    }
    assert forall|l: int, t: Timer<T>, l2: int, t2: Timer<T>|
        #![trigger after.holds(l, t), after.holds(l2, t2)]
        after.holds(l, t) && after.holds(l2, t2) && t.id == t2.id implies l == l2 && t == t2 by {
        assert(holds_swept(m, level, l, t) && holds_swept(m, level, l2, t2));
        let from = if m.holds(l, t) && !(l == level && under_hand(m, level, t)) {
            l
        } else {
            level
        };
        let from2 = if m.holds(l2, t2) && !(l2 == level && under_hand(m, level, t2)) {
            l2
        } else {
            level
        };
        assert(m.holds(from, t) && m.holds(from2, t2));
    }
}

/// The ids that a sweep hands out.
proof fn lemma_due_ids<T>(m: WheelModel<T>, level: int)
    requires
        in_order(m),
        0 <= level < 3,
    ensures
        due_ids(m.hand(level), m.now).no_duplicates(),
        forall|id: T| #[trigger]
            due_ids(m.hand(level), m.now).contains(id) <==> exists|t: Timer<T>|
                #![trigger m.holds(level, t)]
                under_hand(m, level, t) && t.expire <= m.now && t.id == id,
{
    let hand = m.hand(level);
    let due = |t: Timer<T>| t.expire <= m.now;
    let batch = hand.filter(due);
    let ids = due_ids(hand, m.now);
    lemma_slot_range(level, m.now);
    assert(unshared(hand));
    lemma_filter_unshared(hand, due);
    assert(ids =~= batch.map_values(|t: Timer<T>| t.id));
    assert forall|id: T| #[trigger] ids.contains(id) <==> exists|t: Timer<T>|
        #![trigger m.holds(level, t)]
        under_hand(m, level, t) && t.expire <= m.now && t.id == id by {
        if ids.contains(id) {
            let k = choose|k: int| 0 <= k < ids.len() && ids[k] == id;
            let t = batch[k];
            assert(batch.contains(t));
            lemma_filter(hand, due, t);
            assert(m.lanes[level][level_slot(level, m.now)].contains(t));
            assert(m.holds(level, t));
        }
        if exists|t: Timer<T>|
            #![trigger m.holds(level, t)]
            under_hand(m, level, t) && t.expire <= m.now && t.id == id {
            let t = choose|t: Timer<T>|
                #![trigger m.holds(level, t)]
                under_hand(m, level, t) && t.expire <= m.now && t.id == id;
            assert(hand.contains(t));
            lemma_filter(hand, due, t);
            let k = choose|k: int| 0 <= k < batch.len() && batch[k] == t;
            assert(ids[k] == id);
        }
    }
}

/// Turns and buckets of each level, with the period of the level written out.
proof fn lemma_levels(now: int, expire: int)
    ensures
        now / level_period(0) == now && expire / level_period(0) == expire,
        now / level_period(1) == now / 64 && expire / level_period(1) == expire / 64,
        now / level_period(2) == now / 4096 && expire / level_period(2) == expire / 4096,
        now % level_period(0) == 0,
        now % level_period(1) == now % 64,
        now % level_period(2) == now % 4096,
        level_slot(0, now) == now % 64 && level_slot(0, expire) == expire % 64,
        level_slot(1, now) == (now / 64) % 64 && level_slot(1, expire) == (expire / 64) % 64,
        level_slot(2, now) == (now / 4096) % 64 && level_slot(2, expire) == (expire / 4096) % 64,
{
    assert(level_period(0) == 1);
    assert(level_period(1) == 64);
    assert(level_period(2) == 4096);
}

/// The hand of level `l` has yet to reach the turn of `expire`, or reaches it at this tick.
spec fn in_time(l: int, now: int, expire: int) -> bool {
    if now % level_period(l) == 0 {
        expire / level_period(l) >= now / level_period(l)
    } else {
        expire / level_period(l) > now / level_period(l)
    }
}

/// A timer that the hand had yet to reach is in time one tick later.
proof fn lemma_in_time(l: int, now: int, expire: int)
    requires
        0 <= l < 3,
        expire / level_period(l) > now / level_period(l),
    ensures
        in_time(l, now + 1, expire),
{
    lemma_levels(now, expire);
    lemma_levels(now + 1, expire);
}

/// What in time means for a timer of a level whose hand turns: it is due now if it has
/// expired, its turn is still to come if it is not under the hand, and it is in time for the
/// level below.
proof fn lemma_turn(l: int, now: int, expire: int)
    requires
        0 <= l < 3,
        now % level_period(l) == 0,
        in_time(l, now, expire),
    ensures
        expire >= now,
        level_slot(l, now) != level_slot(l, expire) ==> expire / level_period(l) > now
            / level_period(l),
        in_time(level_below(l), now, expire),
        l == 0 && expire > now ==> expire / level_period(l) > now / level_period(l),
{
    lemma_levels(now, expire);
}

/// A timer whose turn is still to come has not expired.
proof fn lemma_ahead(l: int, now: int, expire: int)
    requires
        0 <= l < 3,
        expire / level_period(l) > now / level_period(l),
    ensures
        expire > now,
{
    lemma_levels(now, expire);
}

/// The timers of the `k` highest levels, which have been swept at this tick, have their turn
/// still to come; the others are in time.
spec fn in_time_upto<T>(m: WheelModel<T>, k: nat) -> bool {
    forall|l: int, t: Timer<T>| #[trigger]
        m.holds(l, t) ==> if l >= 3 - k {
            t.expire / level_period(l) > m.now / level_period(l)
        } else {
            in_time(l, m.now, t.expire)
        }
}

/// `t` waits in some level.
spec fn keeps<T>(m: WheelModel<T>, t: Timer<T>) -> bool {
    exists|l: int| #[trigger] m.holds(l, t)
}

/// No two timers of a model that is in order share an id.
proof fn lemma_keeps_unique<T>(m: WheelModel<T>, t: Timer<T>, t2: Timer<T>)
    requires
        in_order(m),
        keeps(m, t),
        keeps(m, t2),
        t.id == t2.id,
    ensures
        t == t2,
{
    let l = choose|l: int| #[trigger] m.holds(l, t);
    let l2 = choose|l: int| #[trigger] m.holds(l, t2);
    assert(m.holds(l, t) && m.holds(l2, t2));
}

/// The state and the ids after the `k` highest levels have been swept.
proof fn lemma_swept_upto<T>(m: WheelModel<T>, k: nat)
    requires
        in_order(m),
        in_time_upto(m, 0),
        k <= 3,
    ensures
        in_order(m.swept_upto(k)),
        m.swept_upto(k).now == m.now,
        in_time_upto(m.swept_upto(k), k),
        m.expired_upto(k).no_duplicates(),
        forall|t: Timer<T>| #[trigger]
            keeps(m, t) <==> keeps(m.swept_upto(k), t) || (t.expire == m.now && m.expired_upto(
                k,
            ).contains(t.id) && keeps(m, t)),
        forall|id: T| #[trigger]
            m.expired_upto(k).contains(id) ==> exists|t: Timer<T>| #[trigger]
                keeps(m, t) && t.id == id && t.expire == m.now && !keeps(m.swept_upto(k), t),
    decreases k,
{
    if k > 0 {
        let level = 3 - k;
        let now = m.now;
        let before = m.swept_upto((k - 1) as nat);
        let after = m.swept_upto(k);
        let old_ids = m.expired_upto((k - 1) as nat);
        let ids = m.expired_upto(k);
        lemma_swept_upto(m, (k - 1) as nat);
        if before.turns(level) {
            lemma_swept(before, level);
            lemma_due_ids(before, level);
            let new_ids = due_ids(before.hand(level), now);
            assert forall|l: int, t: Timer<T>| #[trigger] after.holds(l, t) implies if l >= 3 - k {
                t.expire / level_period(l) > now / level_period(l)
            } else {
                in_time(l, now, t.expire)
            } by {
                assert(holds_swept(before, level, l, t));
                if before.holds(l, t) && !(l == level && under_hand(before, level, t)) {
                    if l == level {
                        lemma_turn(level, now, t.expire);
                    }
                } else {
                    assert(before.holds(level, t));
                    lemma_turn(level, now, t.expire);
                }
            }
            assert forall|t: Timer<T>| #[trigger] keeps(after, t) <==> keeps(before, t) && !(
            under_hand(before, level, t) && t.expire <= now) by {
                if keeps(after, t) {
                    let l = choose|l: int| #[trigger] after.holds(l, t);
                    assert(holds_swept(before, level, l, t));
                    if before.holds(l, t) && !(l == level && under_hand(before, level, t)) {
                        if under_hand(before, level, t) {
                            assert(before.holds(l, t) && before.holds(level, t));
                        }
                    } else {
                        assert(before.holds(level, t));
                    }
                }
                if keeps(before, t) && !(under_hand(before, level, t) && t.expire <= now) {
                    let l = choose|l: int| #[trigger] before.holds(l, t);
                    if under_hand(before, level, t) {
                        assert(before.holds(l, t) && before.holds(level, t));
                        assert(holds_swept(before, level, level_below(level), t));
                        assert(after.holds(level_below(level), t));
                    } else {
                        assert(holds_swept(before, level, l, t));
                        assert(after.holds(l, t));
                    }
                }
            }
            assert forall|t: Timer<T>| #[trigger] under_hand(before, level, t) && t.expire
                <= now implies t.expire == now && keeps(before, t) && new_ids.contains(t.id) by {
                assert(before.holds(level, t));
                lemma_turn(level, now, t.expire);
            }
            assert forall|id: T| #[trigger] ids.contains(id) <==> old_ids.contains(id)
                || new_ids.contains(id) by {
                vstd::seq_lib::lemma_seq_concat_contains_all_elements(new_ids, old_ids, id);
            }
            assert forall|id: T| #[trigger] ids.contains(id) implies exists|t: Timer<T>|
                #[trigger]
                keeps(m, t) && t.id == id && t.expire == now && !keeps(after, t) by {
                if new_ids.contains(id) {
                    let t = choose|t: Timer<T>|
                        #![trigger before.holds(level, t)]
                        under_hand(before, level, t) && t.expire <= now && t.id == id;
                    assert(under_hand(before, level, t) && t.expire <= now);
                    assert(keeps(before, t));
                    assert(keeps(m, t) && !keeps(after, t));
                } else {
                    let t = choose|t: Timer<T>| #[trigger]
                        keeps(m, t) && t.id == id && t.expire == now && !keeps(before, t);
                    assert(keeps(m, t) && !keeps(after, t));
                }
            }
            assert forall|b: int, a: int| 0 <= b < new_ids.len() && 0 <= a
                < old_ids.len() implies new_ids[b] != old_ids[a] by {
                assert(old_ids.contains(old_ids[a]) && new_ids.contains(new_ids[b]));
                if old_ids[a] == new_ids[b] {
                    let t = choose|t: Timer<T>| #[trigger]
                        keeps(m, t) && t.id == old_ids[a] && t.expire == now && !keeps(before, t);
                    let u = choose|t: Timer<T>|
                        #![trigger before.holds(level, t)]
                        under_hand(before, level, t) && t.expire <= now && t.id == new_ids[b];
                    assert(keeps(before, u));
                    assert(keeps(m, u));
                    lemma_keeps_unique(m, t, u);
                }
            }
            vstd::seq_lib::lemma_no_dup_in_concat(new_ids, old_ids);
            assert forall|t: Timer<T>| #[trigger] keeps(m, t) <==> keeps(after, t) || (t.expire
                == now && ids.contains(t.id) && keeps(m, t)) by {
                if keeps(m, t) && keeps(before, t) && !keeps(after, t) {
                    assert(under_hand(before, level, t) && t.expire <= now);
                }
            }
        } else {
            assert forall|l: int, t: Timer<T>| #[trigger] after.holds(l, t) implies if l >= 3 - k {
                t.expire / level_period(l) > now / level_period(l)
            } else {
                in_time(l, now, t.expire)
            } by {
                assert(before.holds(l, t));
            }
        }
    }
}

/// The model one tick later holds the same timers, each of them in time.
proof fn lemma_ticked<T>(m: WheelModel<T>)
    requires
        in_order(m),
        m.timely(),
    ensures
        in_order(m.ticked()),
        in_time_upto(m.ticked(), 0),
        forall|t: Timer<T>| #[trigger] keeps(m.ticked(), t) <==> keeps(m, t),
{
    let after = m.ticked();
    assert(after.lanes == m.lanes);
    assert forall|l: int, t: Timer<T>| #[trigger] after.holds(l, t) implies in_time(
        l,
        after.now,
        t.expire,
    ) && m.holds(l, t) by {
        assert(m.holds(l, t));
        lemma_timely(m, l, t);
        lemma_in_time(l, m.now, t.expire);
    }
    assert forall|l: int, t: Timer<T>, l2: int, t2: Timer<T>|
        #![trigger after.holds(l, t), after.holds(l2, t2)]
        after.holds(l, t) && after.holds(l2, t2) && t.id == t2.id implies l == l2 && t == t2 by {
        assert(m.holds(l, t) && m.holds(l2, t2));
    }
    assert forall|t: Timer<T>| #[trigger] keeps(after, t) <==> keeps(m, t) by {
        if keeps(m, t) {
            let l = choose|l: int| #[trigger] m.holds(l, t);
            assert(after.holds(l, t));
        }
        if keeps(after, t) {
            let l = choose|l: int| #[trigger] after.holds(l, t);
            assert(m.holds(l, t));
        }
    }
}

/// What timely says of a timer that the model holds.
proof fn lemma_timely<T>(m: WheelModel<T>, l: int, t: Timer<T>)
    requires
        m.timely(),
        m.holds(l, t),
    ensures
        t.expire / level_period(l) > m.now / level_period(l),
{
    let s = level_slot(l, t.expire);
    lemma_slot_range(l, t.expire);
    let k = choose|k: int| 0 <= k < m.lanes[l][s].len() && m.lanes[l][s][k] == t;
    assert(m.seat(l, s, k));
}

/// A model in order is timely if all that it holds is.
proof fn lemma_timely_from_holds<T>(m: WheelModel<T>)
    requires
        in_order(m),
        forall|l: int, t: Timer<T>| #[trigger]
            m.holds(l, t) ==> t.expire / level_period(l) > m.now / level_period(l),
    ensures
        m.timely(),
{
    assert forall|l: int, s: int, k: int| #[trigger] m.seat(l, s, k) implies m.lanes[l][s][k].expire
        / level_period(l) > m.now / level_period(l) by {
        let t = m.lanes[l][s][k];
        assert(m.lanes[l][s].contains(t));
        assert(m.holds(l, t));
    }
}

/// Being due, in terms of timers.
proof fn lemma_due_keeps<T>(m: WheelModel<T>, id: T, due: int)
    ensures
        m.due_at(id, due) <==> keeps(m, Timer { id, expire: due }),
{
    if m.due_at(id, due) {
        let (l, t) = choose|l: int, t: Timer<T>| #[trigger]
            m.holds(l, t) && t.id == id && t.expire == due;
        assert(t == Timer { id, expire: due });
    }
}

/// Every waiting id waits for exactly one tick, and that tick is still to come.
pub proof fn law_due_once<T>(m: WheelModel<T>, id: T)
    requires
        m.wf(),
    ensures
        m.waits(id) <==> exists|due: int| m.due_at(id, due),
        forall|due: int| #[trigger] m.due_at(id, due) ==> due > m.now,
        forall|due: int, due2: int| #[trigger]
            m.due_at(id, due) && #[trigger] m.due_at(id, due2) ==> due == due2,
{
    lemma_in_order(m);
    lemma_waits_holds(m, id);
    if m.waits(id) {
        let (l, t) = choose|l: int, t: Timer<T>| #[trigger] m.holds(l, t) && t.id == id;
        assert(m.due_at(id, t.expire));
    }
    assert forall|due: int| #[trigger] m.due_at(id, due) implies due > m.now by {
        let (l, t) = choose|l: int, t: Timer<T>| #[trigger]
            m.holds(l, t) && t.id == id && t.expire == due;
        lemma_timely(m, l, t);
        lemma_ahead(l, m.now, t.expire);
    }
}

/// A base tick hands out exactly the ids that wait for it, each once, and every other id
/// goes on waiting for the tick that it waited for.
pub proof fn law_advance<T>(m: WheelModel<T>)
    requires
        m.wf(),
    ensures
        m.advanced().wf(),
        m.advanced().now == m.now + 1,
        m.advance_ids().no_duplicates(),
        forall|id: T| #[trigger] m.advance_ids().contains(id) <==> m.due_at(id, m.now + 1),
        forall|id: T, due: int| #[trigger]
            m.advanced().due_at(id, due) <==> m.due_at(id, due) && due != m.now + 1,
{
    lemma_in_order(m);
    lemma_ticked(m);
    let now = m.now + 1;
    let mid = m.ticked();
    lemma_swept_upto(mid, 3);
    let after = m.advanced();
    lemma_in_order(after);
    lemma_timely_from_holds(after);
    assert forall|t: Timer<T>| #[trigger] keeps(after, t) implies t.expire > now by {
        let l = choose|l: int| #[trigger] after.holds(l, t);
        lemma_ahead(l, now, t.expire);
    }
    assert forall|id: T| #[trigger] m.advance_ids().contains(id) <==> m.due_at(id, now) by {
        let t = Timer { id, expire: now };
        lemma_due_keeps(m, id, now);
        assert(keeps(mid, t) <==> keeps(m, t));
        if m.advance_ids().contains(id) {
            let u = choose|u: Timer<T>| #[trigger]
                keeps(mid, u) && u.id == id && u.expire == now && !keeps(after, u);
            assert(u == t);
        }
    }
    assert forall|id: T, due: int| #[trigger] after.due_at(id, due) <==> m.due_at(id, due) && due
        != now by {
        let t = Timer { id, expire: due };
        lemma_due_keeps(m, id, due);
        lemma_due_keeps(after, id, due);
        assert(keeps(mid, t) <==> keeps(m, t));
    }
}

/// What the wheel holds once an id is taken out.
proof fn lemma_without<T>(m: WheelModel<T>, id: T)
    requires
        in_order(m),
    ensures
        in_order(m.without(id)),
        m.without(id).now == m.now,
        forall|l: int, t: Timer<T>| #[trigger]
            m.without(id).holds(l, t) <==> m.holds(l, t) && t.id != id,
{
    let after = m.without(id);
    let keep = |t: Timer<T>| t.id != id;
    assert(after.shaped());
    assert forall|l: int, s: int| 0 <= l < 3 && 0 <= s < LV0_SLOTS implies #[trigger] after.lanes[l][s]
        == m.lanes[l][s].filter(keep) && unshared(after.lanes[l][s]) by {
        assert(unshared(m.lanes[l][s]));
        lemma_filter_unshared(m.lanes[l][s], keep);
    }
    assert forall|l: int, s: int, t: Timer<T>|
        0 <= l < 3 && 0 <= s < LV0_SLOTS && #[trigger] after.lanes[l][s].contains(t) implies s
        == level_slot(l, t.expire) by {
        lemma_filter(m.lanes[l][s], keep, t);
        assert(m.lanes[l][s].contains(t));
    }
    assert forall|l: int, t: Timer<T>| #[trigger] after.holds(l, t) <==> m.holds(l, t) && t.id
        != id by {
        if 0 <= l < 3 {
            lemma_slot_range(l, t.expire);
            lemma_filter(m.lanes[l][level_slot(l, t.expire)], keep, t);
        }
    }
    assert forall|l: int, t: Timer<T>, l2: int, t2: Timer<T>|
        #![trigger after.holds(l, t), after.holds(l2, t2)]
        after.holds(l, t) && after.holds(l2, t2) && t.id == t2.id implies l == l2 && t == t2 by {
        assert(m.holds(l, t) && m.holds(l2, t2));
    }
}

/// What the wheel holds once a timer of a new id has joined.
proof fn lemma_placed<T>(m: WheelModel<T>, level: int, timer: Timer<T>)
    requires
        in_order(m),
        0 <= level < 3,
        forall|l: int, t: Timer<T>| #[trigger] m.holds(l, t) ==> t.id != timer.id,
    ensures
        in_order(m.placed(level, timer)),
        m.placed(level, timer).now == m.now,
        forall|l: int, t: Timer<T>| #[trigger]
            m.placed(level, timer).holds(l, t) <==> m.holds(l, t) || (l == level && t == timer),
{
    let after = m.placed(level, timer);
    let slot = level_slot(level, timer.expire);
    let lane = m.lanes[level][slot];
    lemma_slot_range(level, timer.expire);
    assert(after.shaped());
    assert forall|t: Timer<T>| #[trigger] lane.push(timer).contains(t) <==> lane.contains(t) || t
        == timer by {
        vstd::seq_lib::lemma_seq_contains_after_push(lane, timer, t);
        if t == timer {
            assert(lane.push(timer)[lane.len() as int] == t);
        }
    }
    assert forall|l: int, s: int| 0 <= l < 3 && 0 <= s < LV0_SLOTS implies unshared(
        #[trigger] after.lanes[l][s],
    ) by {
        assert(unshared(m.lanes[l][s]));
        if l == level && s == slot {
            assert forall|k: int| 0 <= k < lane.len() implies (#[trigger] lane[k]).id
                != timer.id by {
                assert(m.lanes[level][slot].contains(lane[k]));
                assert(m.holds(level, lane[k]));
            }
            assert(unshared(lane.push(timer)));
        }
    }
    assert forall|l: int, s: int, t: Timer<T>|
        0 <= l < 3 && 0 <= s < LV0_SLOTS && #[trigger] after.lanes[l][s].contains(t) implies s
        == level_slot(l, t.expire) by {
        if l == level && s == slot {
            assert(lane.push(timer).contains(t));
        } else {
            assert(m.lanes[l][s].contains(t));
        }
    }
    assert forall|l: int, t: Timer<T>| #[trigger] after.holds(l, t) <==> m.holds(l, t) || (l
        == level && t == timer) by {
        if 0 <= l < 3 {
            lemma_slot_range(l, t.expire);
            if l == level && level_slot(l, t.expire) == slot {
                assert(lane.push(timer).contains(t) <==> lane.contains(t) || t == timer);
            }
        }
    }
    assert forall|l: int, t: Timer<T>, l2: int, t2: Timer<T>|
        #![trigger after.holds(l, t), after.holds(l2, t2)]
        after.holds(l, t) && after.holds(l2, t2) && t.id == t2.id implies l == l2 && t == t2 by {
        assert(m.holds(l, t) || (l == level && t == timer));
        assert(m.holds(l2, t2) || (l2 == level && t2 == timer));
    }
}

/// An id that is taken out waits for nothing, and every other id goes on waiting for the tick
/// that it waited for.
pub proof fn law_remove<T>(m: WheelModel<T>, id: T)
    requires
        m.wf(),
    ensures
        m.without(id).wf(),
        !m.without(id).waits(id),
        forall|due: int| !m.without(id).due_at(id, due),
        forall|other: T, due: int|
            other != id ==> (#[trigger] m.without(id).due_at(other, due) <==> m.due_at(other, due)),
{
    lemma_in_order(m);
    lemma_without(m, id);
    let after = m.without(id);
    lemma_in_order(after);
    assert forall|l: int, t: Timer<T>| #[trigger] after.holds(l, t) implies t.expire
        / level_period(l) > after.now / level_period(l) by {
        lemma_timely(m, l, t);
    }
    lemma_timely_from_holds(after);
    lemma_waits_holds(after, id);
    assert forall|other: T, due: int| other != id implies (#[trigger] after.due_at(other, due)
        <==> m.due_at(other, due)) by {
        if after.due_at(other, due) {
            let (l, t) = choose|l: int, t: Timer<T>| #[trigger]
                after.holds(l, t) && t.id == other && t.expire == due;
            assert(m.holds(l, t));
        }
        if m.due_at(other, due) {
            let (l, t) = choose|l: int, t: Timer<T>| #[trigger]
                m.holds(l, t) && t.id == other && t.expire == due;
            assert(after.holds(l, t));
        }
    }
}

/// A filter that every member passes changes nothing.
proof fn lemma_filter_all<A>(s: Seq<A>, keep: spec_fn(A) -> bool)
    requires
        forall|x: A| s.contains(x) ==> #[trigger] keep(x),
    ensures
        s.filter(keep) == s,
    decreases s.len(),
{
    reveal(Seq::filter);
    if s.len() > 0 {
        let rest = s.drop_last();
        assert forall|x: A| rest.contains(x) implies #[trigger] keep(x) by {
            let k = choose|k: int| 0 <= k < rest.len() && rest[k] == x;
            assert(s[k] == x);
        }
        lemma_filter_all(rest, keep);
        assert(s.contains(s.last())) by {
            assert(s[s.len() - 1] == s.last());
        }
        assert(rest.push(s.last()) =~= s);
    } else {
        assert(s.filter(keep) =~= s);
    }
}

/// Taking out an id that does not wait changes nothing.
pub proof fn law_remove_unknown<T>(m: WheelModel<T>, id: T)
    requires
        m.wf(),
        !m.waits(id),
    ensures
        m.without(id) == m,
{
    let after = m.without(id);
    let keep = |t: Timer<T>| t.id != id;
    assert forall|l: int, s: int| 0 <= l < 3 && 0 <= s < LV0_SLOTS implies #[trigger] after.lanes[l][s]
        == m.lanes[l][s] by {
        let lane = m.lanes[l][s];
        assert forall|t: Timer<T>| lane.contains(t) implies #[trigger] keep(t) by {
            let k = choose|k: int| 0 <= k < lane.len() && lane[k] == t;
            assert(m.seat(l, s, k));
        }
        lemma_filter_all(lane, keep);
    }
    assert(after.lanes =~~= m.lanes);
}

/// A scheduled id waits for the tick that its delay asks for and for no other, whatever it
/// waited for before, and every other id goes on waiting for the tick that it waited for.
pub proof fn law_schedule<T>(m: WheelModel<T>, id: T, delay: int)
    requires
        m.wf(),
        delay >= 1,
    ensures
        m.scheduled(id, delay).wf(),
        m.scheduled(id, delay).waits(id),
        forall|due: int| #[trigger]
            m.scheduled(id, delay).due_at(id, due) <==> due == m.now + delay,
        forall|other: T, due: int|
            other != id ==> (#[trigger] m.scheduled(id, delay).due_at(other, due) <==> m.due_at(
                other,
                due,
            )),
{
    lemma_in_order(m);
    lemma_without(m, id);
    let mid = m.without(id);
    let timer = Timer { id, expire: m.now + delay };
    let level = level_for(m.now, timer.expire);
    lemma_placed(mid, level, timer);
    let after = m.scheduled(id, delay);
    lemma_in_order(after);
    assert forall|l: int, t: Timer<T>| #[trigger] after.holds(l, t) implies t.expire
        / level_period(l) > after.now / level_period(l) by {
        if mid.holds(l, t) {
            lemma_timely(m, l, t);
        } else {
            lemma_levels(m.now, timer.expire);
        }
    }
    lemma_timely_from_holds(after);
    lemma_waits_holds(after, id);
    assert(after.holds(level, timer));
    assert forall|due: int| #[trigger] after.due_at(id, due) <==> due == timer.expire by {
        if after.due_at(id, due) {
            let (l, t) = choose|l: int, t: Timer<T>| #[trigger]
                after.holds(l, t) && t.id == id && t.expire == due;
        }
    }
    law_remove(m, id);
    assert forall|other: T, due: int| other != id implies (#[trigger] after.due_at(other, due)
        <==> m.due_at(other, due)) by {
        assert(mid.due_at(other, due) <==> m.due_at(other, due));
        if after.due_at(other, due) {
            let (l, t) = choose|l: int, t: Timer<T>| #[trigger]
                after.holds(l, t) && t.id == other && t.expire == due;
            assert(mid.holds(l, t));
        }
        if mid.due_at(other, due) {
            let (l, t) = choose|l: int, t: Timer<T>| #[trigger]
                mid.holds(l, t) && t.id == other && t.expire == due;
            assert(after.holds(l, t));
        }
    }
}

/// A wheel that is left alone for `n` ticks.
pub(crate) proof fn lemma_after<T>(m: WheelModel<T>, n: nat)
    requires
        m.wf(),
    ensures
        m.after(n).wf(),
        m.after(n).now == m.now + n,
        forall|id: T, due: int| #[trigger]
            m.after(n).due_at(id, due) <==> m.due_at(id, due) && due > m.now + n,
    decreases n,
{
    if n == 0 {
        assert forall|id: T, due: int| #[trigger] m.due_at(id, due) implies due > m.now by {
            law_due_once(m, id);
        }
    } else {
        let before = m.after((n - 1) as nat);
        lemma_after(m, (n - 1) as nat);
        law_advance(before);
        assert forall|id: T, due: int| #[trigger] m.after(n).due_at(id, due) <==> m.due_at(id, due)
            && due > m.now + n by {
            assert(before.due_at(id, due) <==> m.due_at(id, due) && due > m.now + n - 1);
        }
    }
}

/// An id that waits is handed out exactly once, at the tick at which it is due; an id that
/// does not wait is never handed out.
pub proof fn law_fires_once<T>(m: WheelModel<T>, id: T, n: nat)
    requires
        m.wf(),
        n >= 1,
    ensures
        m.handed_out(n).contains(id) <==> m.due_at(id, m.now + n),
        m.handed_out(n).no_duplicates(),
        m.after(n).waits(id) <==> exists|due: int| m.due_at(id, due) && due > m.now + n,
{
    let before = m.after((n - 1) as nat);
    lemma_after(m, (n - 1) as nat);
    law_advance(before);
    assert(before.due_at(id, m.now + n) <==> m.due_at(id, m.now + n));
    lemma_after(m, n);
    law_due_once(m.after(n), id);
    if m.after(n).waits(id) {
        let due = choose|due: int| m.after(n).due_at(id, due);
        assert(m.due_at(id, due) && due > m.now + n);
    }
    if exists|due: int| m.due_at(id, due) && due > m.now + n {
        let due = choose|due: int| m.due_at(id, due) && due > m.now + n;
        assert(m.after(n).due_at(id, due));
    }
}

/// A task that is scheduled and then left alone is handed out when its delay is over, to the
/// tick: neither earlier nor later.
pub proof fn law_scheduled_fires<T>(m: WheelModel<T>, id: T, delay: int, n: nat)
    requires
        m.wf(),
        delay >= 1,
        n >= 1,
    ensures
        m.scheduled(id, delay).handed_out(n).contains(id) <==> n == delay,
{
    law_schedule(m, id, delay);
    law_fires_once(m.scheduled(id, delay), id, n);
}

/// A task that has been taken out is not handed out until it is scheduled again.
pub proof fn law_removed_never_fires<T>(m: WheelModel<T>, id: T, n: nat)
    requires
        m.wf(),
        n >= 1,
    ensures
        !m.without(id).handed_out(n).contains(id),
{
    law_remove(m, id);
    law_fires_once(m.without(id), id, n);
}

/// An id is in one of the first `n` buckets.
spec fn waits_upto<T>(m: WheelModel<T>, n: nat, id: T) -> bool {
    exists|l: int, s: int, k: int| #[trigger]
        m.seat(l, s, k) && l * LV0_SLOTS + s < n && m.lanes[l][s][k].id == id
}

/// The ids in the first `n` buckets.
proof fn lemma_ids_upto<T>(m: WheelModel<T>, n: nat)
    requires
        m.wf(),
        n <= 3 * LV0_SLOTS,
    ensures
        m.ids_upto(n).no_duplicates(),
        forall|id: T| #[trigger] m.ids_upto(n).contains(id) <==> waits_upto(m, n, id),
    decreases n,
{
    if n > 0 {
        let b = n - 1;
        let l = b / LV0_SLOTS as int;
        let s = b % LV0_SLOTS as int;
        let before = m.ids_upto(b as nat);
        let ids = m.ids_upto(n);
        let lane = m.lanes[l][s];
        let here = lane.map_values(|t: Timer<T>| t.id);
        lemma_ids_upto(m, b as nat);
        assert(l * LV0_SLOTS + s == b);
        assert forall|id: T| #[trigger] ids.contains(id) <==> waits_upto(m, n, id) by {
            vstd::seq_lib::lemma_seq_concat_contains_all_elements(before, here, id);
            if here.contains(id) {
                let k = choose|k: int| 0 <= k < here.len() && here[k] == id;
                assert(m.seat(l, s, k));
            }
            if before.contains(id) {
                assert(waits_upto(m, b as nat, id));
            }
            if waits_upto(m, n, id) {
                let (l2, s2, k2) = choose|l: int, s: int, k: int| #[trigger]
                    m.seat(l, s, k) && l * LV0_SLOTS + s < n && m.lanes[l][s][k].id == id;
                if l2 * LV0_SLOTS + s2 == b {
                    assert(l2 == l && s2 == s);
                    assert(here[k2] == id);
                } else {
                    assert(waits_upto(m, b as nat, id));
                }
            }
        }
        assert forall|x: int, y: int| 0 <= x < here.len() && 0 <= y < here.len() && x
            != y implies here[x] != here[y] by {
            assert(m.seat(l, s, x) && m.seat(l, s, y));
        }
        assert forall|x: int, y: int| 0 <= x < before.len() && 0 <= y
            < here.len() implies before[x] != here[y] by {
            assert(before.contains(before[x]));
            let (l2, s2, k2) = choose|l: int, s: int, k: int| #[trigger]
                m.seat(l, s, k) && l * LV0_SLOTS + s < b && m.lanes[l][s][k].id == before[x];
            assert(m.seat(l2, s2, k2) && m.seat(l, s, y));
        }
        vstd::seq_lib::lemma_no_dup_in_concat(before, here);
    }
}

/// Draining the wheel hands out every waiting id once and leaves nothing behind.
pub proof fn law_drain_all<T>(m: WheelModel<T>, id: T)
    requires
        m.wf(),
    ensures
        m.all_ids().no_duplicates(),
        m.all_ids().contains(id) <==> m.waits(id),
        m.cleared().wf(),
        !m.cleared().waits(id),
{
    lemma_ids_upto(m, (3 * LV0_SLOTS) as nat);
    if m.waits(id) {
        let (l, s, k) = choose|l: int, s: int, k: int| #[trigger]
            m.seat(l, s, k) && m.lanes[l][s][k].id == id;
        assert(m.seat(l, s, k) && l * LV0_SLOTS + s < 3 * LV0_SLOTS);
        assert(waits_upto(m, (3 * LV0_SLOTS) as nat, id));
    }
}

/// Nothing waits in a new wheel.
pub proof fn law_fresh<T>(id: T)
    ensures
        WheelModel::<T>::fresh().wf(),
        !WheelModel::<T>::fresh().waits(id),
{
}

} // verus!
