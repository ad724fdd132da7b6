//! What each operation is for, in plain numbers, sequences and maps.

use std::time::Duration;

use vstd::arithmetic::div_mod::{lemma_fundamental_div_mod, lemma_mod_bound};
use vstd::prelude::*;

use crate::cancel::{marked, marks, unmarked};
use crate::channel::{joined, oldest};
use crate::command::{bookings, is_booking, mentions, requests, Cmd};
use crate::config::{
    LV0_SLOTS, LV0_TICK, LV1_SLOTS, LV1_TICK, LV2_SLOTS, LV2_TICK,
};
use crate::level::slot_index;
use crate::machine::{catch_up, target_tick};
use crate::model::{level_below, level_for, level_period, level_slot};
use crate::shared::bumped;
use crate::wheel::{in_range, tick_length, ticks_of};

verus! {

/// A quotient in terms of products.
proof fn lemma_quotient(value: int, unit: int)
    requires
        value >= 0,
        unit >= 1,
    ensures
        value / unit >= 0,
        (value / unit) * unit <= value < (value / unit + 1) * unit,
{
    lemma_fundamental_div_mod(value, unit);
    lemma_mod_bound(value, unit);
    let q = value / unit;
    assert(unit * q == q * unit) by (nonlinear_arith);
    assert((q + 1) * unit == q * unit + unit) by (nonlinear_arith);
    assert(q >= 0) by (nonlinear_arith)
        requires
            value >= 0,
            unit >= 1,
            value < q * unit + unit,
    ;
}

/// Numbers whose multiples enclose the same value are the same.
proof fn lemma_enclosed(value: int, unit: int, a: int, b: int)
    requires
        unit >= 1,
        a * unit <= value < (b + 1) * unit,
    ensures
        a <= b,
{
    assert(a <= b) by (nonlinear_arith)
        requires
            unit >= 1,
            a * unit < (b + 1) * unit,
    ;
}

/// The wheel has three levels of 64 buckets, which move on every tick, every 64 and every
/// 4096 ticks.
pub proof fn law_geometry(now: int, expire: int)
    ensures
        LV0_SLOTS == 64 && LV1_SLOTS == 64 && LV2_SLOTS == 64,
        LV0_TICK == 1 && LV1_TICK == 64 && LV2_TICK == 4096,
        level_period(0) == 1 && level_period(1) == 64 && level_period(2) == 4096,
        level_below(2) == 1 && level_below(1) == 0 && level_below(0) == 0,
        level_for(now, expire) == 0 <==> expire - now < 64,
        level_for(now, expire) == 1 <==> 64 <= expire - now < 4096,
        level_for(now, expire) == 2 <==> 4096 <= expire - now,
        level_slot(0, expire) == expire % 64,
        level_slot(1, expire) == (expire / 64) % 64,
        level_slot(2, expire) == (expire / 4096) % 64,
{
    assert(level_period(0) == 1);
    assert(level_period(1) == 64);
    assert(level_period(2) == 4096);
}

/// The ticks from `turn * period` on, `period` of them, share a bucket, and the next `period`
/// ticks have the next one, round and round.
pub proof fn law_slots_turn(turn: int, offset: int, period: int, slots: int)
    requires
        turn >= 0,
        slots >= 1,
        0 <= offset < period,
    ensures
        slot_index(turn * period + offset, period, slots) == slot_index(
            turn * period,
            period,
            slots,
        ),
        0 <= slot_index(turn * period + offset, period, slots) < slots,
        slot_index(offset, period, slots) == 0,
        slot_index((turn + 1) * period + offset, period, slots) == if slot_index(
            turn * period + offset,
            period,
            slots,
        ) + 1 == slots {
            0
        } else {
            slot_index(turn * period + offset, period, slots) + 1
        },
{
    lemma_turn_of(turn, offset, period);
    lemma_turn_of(turn, 0, period);
    lemma_turn_of(0, offset, period);
    lemma_turn_of(turn + 1, offset, period);
    lemma_mod_bound(turn, slots);
    lemma_fundamental_div_mod(turn, slots);
    let r = turn % slots;
    let q = turn / slots;
    if r + 1 == slots {
        assert(turn + 1 == (q + 1) * slots) by (nonlinear_arith)
            requires
                turn == slots * q + r,
                r + 1 == slots,
        ;
        vstd::arithmetic::div_mod::lemma_fundamental_div_mod_converse(turn + 1, slots, q + 1, 0);
    } else {
        assert(turn + 1 == q * slots + (r + 1)) by (nonlinear_arith)
            requires
                turn == slots * q + r,
        ;
        vstd::arithmetic::div_mod::lemma_fundamental_div_mod_converse(turn + 1, slots, q, r + 1);
    }
    vstd::arithmetic::div_mod::lemma_small_mod(0, slots as nat);
}

/// The turn that a tick falls in.
proof fn lemma_turn_of(turn: int, offset: int, period: int)
    requires
        0 <= offset < period,
    ensures
        (turn * period + offset) / period == turn,
{
    assert(turn * period == period * turn) by (nonlinear_arith);
    vstd::arithmetic::div_mod::lemma_fundamental_div_mod_converse(
        turn * period + offset,
        period,
        turn,
        offset,
    );
}

/// A timeout becomes the number of whole ticks in it: one tick if there is none in it, and no
/// more than a `u64` holds.
pub proof fn law_delay(timeout_ms: int, tick_ms: int)
    requires
        timeout_ms >= 0,
        tick_ms >= 1,
    ensures
        timeout_ms < tick_ms ==> ticks_of(timeout_ms, tick_ms) == 1,
        tick_ms <= timeout_ms < (u64::MAX + 1) * tick_ms ==> ticks_of(timeout_ms, tick_ms)
            * tick_ms <= timeout_ms < (ticks_of(timeout_ms, tick_ms) + 1) * tick_ms,
        timeout_ms >= (u64::MAX + 1) * tick_ms ==> ticks_of(timeout_ms, tick_ms) == u64::MAX,
        1 <= ticks_of(timeout_ms, tick_ms) <= u64::MAX,
{
    let q = timeout_ms / tick_ms;
    lemma_quotient(timeout_ms, tick_ms);
    if timeout_ms < tick_ms {
        lemma_enclosed(timeout_ms, tick_ms, q, 0);
    } else {
        lemma_enclosed(timeout_ms, tick_ms, 1, q);
    }
    if timeout_ms < (u64::MAX + 1) * tick_ms {
        lemma_enclosed(timeout_ms, tick_ms, q, u64::MAX as int);
    } else {
        lemma_enclosed(timeout_ms, tick_ms, u64::MAX + 1, q);
    }
}

/// A tick is as long as the interval says, in whole milliseconds, and never shorter than one.
pub proof fn law_tick_length(interval_ms: int)
    ensures
        interval_ms >= 1 ==> tick_length(interval_ms) == interval_ms,
        interval_ms < 1 ==> tick_length(interval_ms) == 1,
{
}

/// A delay is within the reach of the clock if the tick at its end is a `u64`, and the clock is
/// not yet less than a turn of the highest level from its end.
pub proof fn law_reach(now: int, delay: int)
    ensures
        in_range(now, delay) <==> now + delay <= 0xffff_ffff_ffff_ffff && now + 4096
            <= 0xffff_ffff_ffff_ffff,
{
}

/// A timeout of `ms` milliseconds that begins at tick `now` fits exactly if the tick at which
/// it is over is a `u64`, and the clock is not less than 4096 ticks from its end.
pub proof fn law_fitting(now: int, ms: int, t: int)
    requires
        ms >= 0,
        t >= 1,
    ensures
        ({
            let room = 0xffff_ffff_ffff_ffff - now;
            let fits = in_range(now, ticks_of(ms, t));
            &&& room < 4096 ==> !fits
            &&& room >= 4096 && ms < (room + 1) * t ==> fits
            &&& (room + 1) * t <= ms < (u64::MAX + 1) * t ==> !fits
            &&& ms >= (u64::MAX + 1) * t ==> (fits <==> room >= 0xffff_ffff_ffff_ffff)
        }),
{
    let room = 0xffff_ffff_ffff_ffff - now;
    let d = ticks_of(ms, t);
    law_delay(ms, t);
    law_reach(now, d);
    if room >= 4096 && ms < (room + 1) * t {
        if t <= ms && ms < (u64::MAX + 1) * t {
            assert(d <= room) by (nonlinear_arith)
                requires
                    t >= 1,
                    d * t <= ms,
                    ms < (room + 1) * t,
            ;
        } else if ms >= (u64::MAX + 1) * t {
            assert(u64::MAX as int <= room) by (nonlinear_arith)
                requires
                    t >= 1,
                    ms >= (u64::MAX + 1) * t,
                    ms < (room + 1) * t,
            ;
        }
    }
    if (room + 1) * t <= ms && ms < (u64::MAX + 1) * t {
        if t <= ms {
            assert(d > room) by (nonlinear_arith)
                requires
                    t >= 1,
                    ms < (d + 1) * t,
                    (room + 1) * t <= ms,
            ;
        } else {
            assert(room < 0) by (nonlinear_arith)
                requires
                    t >= 1,
                    ms < t,
                    (room + 1) * t <= ms,
            ;
        }
    }
}

/// The target is the number of whole ticks that have passed, as far as a `u64` counts them.
pub proof fn law_target(elapsed_ms: int, tick_ms: int)
    requires
        elapsed_ms >= 0,
        tick_ms >= 1,
    ensures
        0 <= target_tick(elapsed_ms, tick_ms) <= u64::MAX,
        elapsed_ms < (u64::MAX + 1) * tick_ms ==> target_tick(elapsed_ms, tick_ms) * tick_ms
            <= elapsed_ms < (target_tick(elapsed_ms, tick_ms) + 1) * tick_ms,
        exists|rounds: int|
            #![trigger (rounds * 0x1_0000_0000_0000_0000)]
            rounds >= 0 && (rounds * 0x1_0000_0000_0000_0000 + target_tick(elapsed_ms, tick_ms))
                * tick_ms <= elapsed_ms < (rounds * 0x1_0000_0000_0000_0000 + target_tick(
                elapsed_ms,
                tick_ms,
            ) + 1) * tick_ms,
{
    let q = elapsed_ms / tick_ms;
    lemma_quotient(elapsed_ms, tick_ms);
    let rounds = q / 0x1_0000_0000_0000_0000;
    assert(rounds * 0x1_0000_0000_0000_0000 + q % 0x1_0000_0000_0000_0000 == q);
    if elapsed_ms < (u64::MAX + 1) * tick_ms {
        lemma_enclosed(elapsed_ms, tick_ms, q, u64::MAX as int);
    }
}

/// A wheel at tick `now` that catches up after `elapsed_ms` milliseconds does not pass the
/// clock, moves if a whole tick more has passed, takes at most ten ticks at once, and stops
/// short of the clock only at a multiple of ten.
pub proof fn law_compensation(now: int, elapsed_ms: int, tick_ms: int)
    requires
        now >= 0,
        0 <= elapsed_ms < (u64::MAX + 1) * tick_ms,
        tick_ms >= 1,
    ensures
        ({
            let next = now + catch_up(now, target_tick(elapsed_ms, tick_ms));
            &&& now <= next <= now + 10
            &&& next > now ==> next * tick_ms <= elapsed_ms
            &&& (now + 1) * tick_ms <= elapsed_ms ==> next > now
            &&& (next + 1) * tick_ms <= elapsed_ms ==> next % 10 == 0
            &&& forall|t: int| now < t < next ==> #[trigger] (t % 10) != 0
        }),
{
    let target = target_tick(elapsed_ms, tick_ms);
    let next = now + catch_up(now, target);
    law_target(elapsed_ms, tick_ms);
    if next > now {
        assert(next <= target);
        assert(next * tick_ms <= target * tick_ms) by (nonlinear_arith)
            requires
                next <= target,
                tick_ms >= 1,
        ;
    }
    if (now + 1) * tick_ms <= elapsed_ms {
        lemma_enclosed(elapsed_ms, tick_ms, now + 1, target);
    }
    if (next + 1) * tick_ms <= elapsed_ms {
        lemma_enclosed(elapsed_ms, tick_ms, next + 1, target);
    }
}

/// Counters go up by one, and round to zero at the end.
pub proof fn law_bumped(counter: usize)
    ensures
        counter < usize::MAX ==> bumped(counter) == counter + 1,
        counter == usize::MAX ==> bumped(counter) == 0,
{
}

/// What markers are in the map of markers.
pub proof fn law_marks<T>(cancelled: Map<T, usize>, id: T)
    requires
        marks(cancelled, id) < usize::MAX,
    ensures
        cancelled.contains_key(id) ==> marks(cancelled, id) == cancelled[id],
        !cancelled.contains_key(id) ==> marks(cancelled, id) == 0,
        marked(cancelled, id).contains_key(id),
        marked(cancelled, id)[id] == if cancelled.contains_key(id) {
            cancelled[id] + 1
        } else {
            1
        },
        marked(cancelled, id).remove(id) == cancelled.remove(id),
        unmarked(cancelled, id).contains_key(id) <==> cancelled.contains_key(id) && cancelled[id]
            >= 2,
        cancelled.contains_key(id) && cancelled[id] >= 2 ==> unmarked(cancelled, id)[id]
            == cancelled[id] - 1,
        unmarked(cancelled, id).remove(id) == cancelled.remove(id),
{
    assert(marked(cancelled, id).remove(id) =~= cancelled.remove(id));
    assert(unmarked(cancelled, id).remove(id) =~= cancelled.remove(id));
}

/// The oldest command in a channel is the first of those it accepted that was not taken.
pub proof fn law_oldest<T>(taken: Seq<Cmd<T>>, rest: Seq<Cmd<T>>)
    ensures
        rest.len() == 0 ==> oldest(taken + rest, taken) is None,
        rest.len() > 0 ==> oldest(taken + rest, taken) == Some(rest[0]),
        joined(taken, oldest(taken + rest, taken)) + (if rest.len() > 0 {
            rest.skip(1)
        } else {
            rest
        }) == taken + rest,
{
    if rest.len() > 0 {
        assert(taken.push(rest[0]) + rest.skip(1) =~= taken + rest);
    }
}

/// Which commands are about a task, and which are counted.
pub proof fn law_commands<T>(id: T, other: T, timeout: Duration, log: Seq<Cmd<T>>, cmd: Cmd<T>)
    requires
        id != other,
    ensures
        Cmd::Insert(id, timeout).concerns(id) && !Cmd::Insert(id, timeout).concerns(other),
        Cmd::Reset(id, timeout).concerns(id) && !Cmd::Reset(id, timeout).concerns(other),
        Cmd::Remove(id).concerns(id) && !Cmd::Remove(id).concerns(other),
        !Cmd::<T>::Shutdown.concerns(id),
        is_booking(Cmd::Insert(id, timeout)) && is_booking(Cmd::Reset(id, timeout)),
        !is_booking(Cmd::Remove(id)) && !is_booking(Cmd::<T>::Shutdown),
        bookings(Seq::<Cmd<T>>::empty()) == 0,
        requests(Seq::<Cmd<T>>::empty()) == 0,
        mentions(Seq::<Cmd<T>>::empty(), id) == 0,
        bookings(log.push(Cmd::Insert(id, timeout))) == bookings(log) + 1,
        bookings(log.push(Cmd::Reset(id, timeout))) == bookings(log) + 1,
        bookings(log.push(Cmd::Remove(id))) == bookings(log),
        bookings(log.push(Cmd::Shutdown)) == bookings(log),
        requests(log.push(Cmd::Insert(id, timeout))) == requests(log) + 1,
        requests(log.push(Cmd::Reset(id, timeout))) == requests(log) + 1,
        requests(log.push(Cmd::Remove(id))) == requests(log) + 1,
        requests(log.push(Cmd::Shutdown)) == requests(log),
        mentions(log.push(cmd), id) == mentions(log, id) + if cmd.concerns(id) {
            1nat
        } else {
            0
        },
{
    reveal(Seq::filter);
    crate::command::lemma_counts_push(log, Cmd::Insert(id, timeout));
    crate::command::lemma_counts_push(log, Cmd::Reset(id, timeout));
    crate::command::lemma_counts_push(log, Cmd::Remove(id));
    crate::command::lemma_counts_push(log, Cmd::Shutdown);
    crate::command::lemma_mentions_push(log, cmd, id);
}

} // verus!
