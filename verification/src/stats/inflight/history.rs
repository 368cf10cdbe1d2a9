//! Bytes in flight, by what was sent and when.
use vstd::arithmetic::div_mod::{
    lemma_div_is_ordered, lemma_fundamental_div_mod, lemma_fundamental_div_mod_converse,
};
use vstd::arithmetic::power2::{lemma2_to64, lemma_pow2_adds, lemma_pow2_pos, pow2};
use vstd::prelude::*;

use crate::clock::{millis, span};
use crate::num::bounds::lemma_error;
use crate::num::close::most;
use crate::num::facts::lemma_nearest_exact;
use crate::num::format::{lemma_magnitude_of_digits, lemma_nearest_at_most, single, Exact};
use crate::num::single::{of_whole_32, F32, INFINITE_32};
use crate::stats::inflight::{sum_bytes, InFlight};

verus! {

/// The slot of a time, counted from the time `start`.
pub open spec fn slot_of(start: int, slot_ms: u32, t: int) -> int {
    (t - start) / 1_000_000 / slot_ms as int
}

/// Buckets that were empty at the time `start`, after bytes were sent, each with their time.
pub open spec fn after(slot_ms: u32, num_slots: nat, start: int, sends: Seq<(int, nat)>) -> InFlight
    decreases sends.len(),
{
    if sends.len() == 0 {
        InFlight::empty(slot_ms, num_slots, start)
    } else {
        after(slot_ms, num_slots, start, sends.drop_last()).advanced(sends.last().0).sent(
            sends.last().1,
        )
    }
}

/// The bytes sent in one slot.
pub open spec fn sent_in(start: int, slot_ms: u32, sends: Seq<(int, nat)>, slot: int) -> nat
    decreases sends.len(),
{
    if sends.len() == 0 {
        0
    } else {
        sent_in(start, slot_ms, sends.drop_last(), slot) + if slot_of(
            start,
            slot_ms,
            sends.last().0,
        ) == slot {
            sends.last().1
        } else {
            0
        }
    }
}

/// The bytes sent after a slot.
pub open spec fn sent_after(start: int, slot_ms: u32, sends: Seq<(int, nat)>, slot: int) -> nat
    decreases sends.len(),
{
    if sends.len() == 0 {
        0
    } else {
        sent_after(start, slot_ms, sends.drop_last(), slot) + if slot_of(
            start,
            slot_ms,
            sends.last().0,
        ) > slot {
            sends.last().1
        } else {
            0
        }
    }
}

/// All the bytes sent.
pub open spec fn sent_at_all(sends: Seq<(int, nat)>) -> nat
    decreases sends.len(),
{
    if sends.len() == 0 {
        0
    } else {
        sent_at_all(sends.drop_last()) + sends.last().1
    }
}

/// The times do not fall, and lie between `start` and `now`.
pub open spec fn in_time(start: int, sends: Seq<(int, nat)>, now: int) -> bool
    decreases sends.len(),
{
    &&& start <= now
    &&& sends.len() > 0 ==> sends.last().0 <= now && in_time(
        start,
        sends.drop_last(),
        sends.last().0,
    )
}

/// The slot of the last time that something was sent.
pub open spec fn last_slot(start: int, slot_ms: u32, sends: Seq<(int, nat)>) -> int {
    if sends.len() == 0 {
        0
    } else {
        slot_of(start, slot_ms, sends.last().0)
    }
}

proof fn lemma_slots_grow(start: int, slot_ms: u32, t: int, now: int)
    requires
        start <= t <= now,
        slot_ms > 0,
    ensures
        0 <= slot_of(start, slot_ms, t) <= slot_of(start, slot_ms, now),
{
    let s = slot_ms as int;
    let (a, b) = ((t - start) / 1_000_000, (now - start) / 1_000_000);
    assert(0 <= a <= b);
    lemma_div_is_ordered(a, b, s);
    lemma_fundamental_div_mod(a, s);
    assert(a / s >= 0) by (nonlinear_arith)
        requires
            a == s * (a / s) + a % s,
            0 <= a % s < s,
            a >= 0,
    ;
}

/// Nothing was sent after the last slot.
proof fn lemma_nothing_later(start: int, slot_ms: u32, sends: Seq<(int, nat)>, now: int, k: int)
    requires
        in_time(start, sends, now),
        slot_ms > 0,
        k >= slot_of(start, slot_ms, now),
    ensures
        k > slot_of(start, slot_ms, now) ==> sent_in(start, slot_ms, sends, k) == 0,
        sent_after(start, slot_ms, sends, k) == 0,
    decreases sends.len(),
{
    if sends.len() > 0 {
        let t = sends.last().0;
        assert(start <= t) by {
            assert(in_time(start, sends.drop_last(), t));
        }
        lemma_slots_grow(start, slot_ms, t, now);
        lemma_nothing_later(start, slot_ms, sends.drop_last(), t, k);
    }
}

proof fn lemma_parts(start: int, slot_ms: u32, sends: Seq<(int, nat)>, k: int)
    ensures
        sent_in(start, slot_ms, sends, k) <= sent_at_all(sends),
        sent_after(start, slot_ms, sends, k - 1) == sent_after(start, slot_ms, sends, k) + sent_in(
            start,
            slot_ms,
            sends,
            k,
        ),
    decreases sends.len(),
{
    if sends.len() > 0 {
        lemma_parts(start, slot_ms, sends.drop_last(), k);
    }
}

/// Buckets that move on from the slot `k` of their tick.
proof fn lemma_moved(x: InFlight, start: int, k: int, now: int)
    requires
        x.slot_ms > 0,
        x.last_tick == start + k * x.slot_ms * 1_000_000,
        0 <= k <= slot_of(start, x.slot_ms, now),
        start <= now,
        (now - start) / 1_000_000 <= u64::MAX,
        slot_of(start, x.slot_ms, now) <= usize::MAX,
    ensures
        ({
            let n = slot_of(start, x.slot_ms, now);
            let y = x.advanced(now);
            &&& y.last_tick == start + n * x.slot_ms * 1_000_000
            &&& y.slot_ms == x.slot_ms
            &&& y.recent.len() == x.recent.len()
            &&& forall|i: int|
                0 <= i < x.recent.len() ==> #[trigger] y.recent[i] == if i < n - k {
                    0u64
                } else {
                    x.recent[i - (n - k)]
                }
        }),
{
    let s = x.slot_ms as int;
    let a = (now - start) / 1_000_000;
    let n = slot_of(start, x.slot_ms, now);
    lemma_fundamental_div_mod(a, s);
    let step = k * s;
    assert(s * k == step && s * n >= step) by (nonlinear_arith)
        requires
            step == k * s,
            k <= n,
            s > 0,
    ;
    assert(a >= step);
    assert(now - x.last_tick == (now - start) - step * 1_000_000) by (nonlinear_arith)
        requires
            x.last_tick == start + k * s * 1_000_000,
            step == k * s,
    ;
    assert((now - x.last_tick) / 1_000_000 == a - step);
    assert(now >= x.last_tick);
    assert((a - step) / s == n - k) by {
        assert(a - step == s * (n - k) + a % s) by (nonlinear_arith)
            requires
                a == s * n + a % s,
                step == k * s,
        ;
        lemma_fundamental_div_mod_converse(a - step, s, n - k, a % s);
    }
    assert((n - k) * s * 1_000_000 + k * s * 1_000_000 == n * s * 1_000_000) by (nonlinear_arith);
    assert(span(x.last_tick, now) == now - x.last_tick);
    assert(millis(span(x.last_tick, now)) == a - step);
}

/// The buckets hold what was sent in the slot of each.
proof fn lemma_buckets(slot_ms: u32, num_slots: nat, start: int, sends: Seq<(int, nat)>, now: int)
    requires
        slot_ms > 0,
        num_slots > 0,
        in_time(start, sends, now),
        sent_at_all(sends) <= u64::MAX,
        (now - start) / 1_000_000 <= u64::MAX,
        slot_of(start, slot_ms, now) <= usize::MAX,
    ensures
        ({
            let x = after(slot_ms, num_slots, start, sends);
            let k = last_slot(start, slot_ms, sends);
            &&& 0 <= k <= slot_of(start, slot_ms, now)
            &&& x.slot_ms == slot_ms
            &&& x.recent.len() == num_slots
            &&& x.last_tick == start + k * slot_ms * 1_000_000
            &&& forall|i: int|
                0 <= i < num_slots ==> #[trigger] x.recent[i] == sent_in(
                    start,
                    slot_ms,
                    sends,
                    k - i,
                )
        }),
        ({
            let y = after(slot_ms, num_slots, start, sends).advanced(now);
            let n = slot_of(start, slot_ms, now);
            &&& y.slot_ms == slot_ms
            &&& y.recent.len() == num_slots
            &&& y.last_tick == start + n * slot_ms * 1_000_000
            &&& forall|i: int|
                0 <= i < num_slots ==> #[trigger] y.recent[i] == sent_in(
                    start,
                    slot_ms,
                    sends,
                    n - i,
                )
        }),
    decreases sends.len(),
{
    let x = after(slot_ms, num_slots, start, sends);
    let k = last_slot(start, slot_ms, sends);
    let n = slot_of(start, slot_ms, now);
    if sends.len() == 0 {
        lemma_slots_grow(start, slot_ms, start, now);
        assert(0 * slot_ms * 1_000_000 == 0) by (nonlinear_arith);
    } else {
        let front = sends.drop_last();
        let (t, size) = sends.last();
        assert(in_time(start, front, t));
        assert(start <= t);
        lemma_slots_grow(start, slot_ms, t, now);
        assert((t - start) / 1_000_000 <= (now - start) / 1_000_000);
        lemma_buckets(slot_ms, num_slots, start, front, t);
        let w = after(slot_ms, num_slots, start, front).advanced(t);
        lemma_parts(start, slot_ms, sends, k);
        assert(w.recent[0] == sent_in(start, slot_ms, front, k - 0));
        assert forall|i: int| 0 <= i < num_slots implies #[trigger] x.recent[i] == sent_in(
            start,
            slot_ms,
            sends,
            k - i,
        ) by {
            assert(w.recent[i] == sent_in(start, slot_ms, front, k - i));
        }
    }
    lemma_moved(x, start, k, now);
    let y = x.advanced(now);
    assert forall|i: int| 0 <= i < num_slots implies #[trigger] y.recent[i] == sent_in(
        start,
        slot_ms,
        sends,
        n - i,
    ) by {
        if i < n - k {
            if sends.len() > 0 {
                let t = sends.last().0;
                assert(in_time(start, sends, t));
                lemma_nothing_later(start, slot_ms, sends, t, n - i);
            }
        } else {
            assert(x.recent[i - (n - k)] == sent_in(start, slot_ms, sends, k - (i - (n - k))));
        }
    }
}

/// The sum over the first buckets.
proof fn lemma_first_buckets(
    recent: Seq<u64>,
    start: int,
    slot_ms: u32,
    sends: Seq<(int, nat)>,
    n: int,
    slots: nat,
)
    requires
        slots <= recent.len(),
        forall|i: int|
            0 <= i < recent.len() ==> #[trigger] recent[i] == sent_in(start, slot_ms, sends, n - i),
        sent_after(start, slot_ms, sends, n) == 0,
    ensures
        sum_bytes(recent.take(slots as int)) == sent_after(start, slot_ms, sends, n - slots),
    decreases slots,
{
    if slots == 0 {
        assert(recent.take(0) =~= seq![]);
    } else {
        let k = (slots - 1) as nat;
        lemma_first_buckets(recent, start, slot_ms, sends, n, k);
        assert(recent.take(slots as int).drop_last() =~= recent.take(k as int));
        assert(recent.take(slots as int).last() == recent[k as int]);
        lemma_parts(start, slot_ms, sends, n - k);
    }
}

/// Over a number of slots, the bytes in flight are those sent in the current slot and in the ones
/// before it, as many as asked for: whatever was sent before that is not counted, and whatever
/// was sent since is.
pub proof fn law_bytes_in_flight_are_those_of_the_last_slots(
    slot_ms: u32,
    num_slots: nat,
    start: int,
    sends: Seq<(int, nat)>,
    now: int,
    slots: nat,
)
    requires
        slot_ms > 0,
        num_slots > 0,
        slots <= num_slots,
        in_time(start, sends, now),
        sent_at_all(sends) <= u64::MAX,
        (now - start) / 1_000_000 <= u64::MAX,
        slot_of(start, slot_ms, now) <= usize::MAX,
    ensures
        after(slot_ms, num_slots, start, sends).advanced(now).estimate(slots) == sent_after(
            start,
            slot_ms,
            sends,
            slot_of(start, slot_ms, now) - slots,
        ),
{
    let n = slot_of(start, slot_ms, now);
    lemma_buckets(slot_ms, num_slots, start, sends, now);
    lemma_nothing_later(start, slot_ms, sends, now, n);
    let y = after(slot_ms, num_slots, start, sends).advanced(now);
    lemma_first_buckets(y.recent, start, slot_ms, sends, n, slots);
    lemma_at_most_all(start, slot_ms, sends, n - slots);
}

proof fn lemma_at_most_all(start: int, slot_ms: u32, sends: Seq<(int, nat)>, k: int)
    ensures
        sent_after(start, slot_ms, sends, k) <= sent_at_all(sends),
    decreases sends.len(),
{
    if sends.len() > 0 {
        lemma_at_most_all(start, slot_ms, sends.drop_last(), k);
    }
}

/// A quotient of up to 2^101 is rounded to a 32-bit number.
proof fn lemma_finite_32(p: nat, q: nat)
    requires
        q > 0,
        p <= pow2(250) * q,
    ensures
        single().nearest(Exact::Ratio { p, q }) < INFINITE_32,
{
    lemma_magnitude_of_digits(single(), 227, 0x80_0000);
    lemma_pow2_adds(23, 227);
    lemma2_to64();
    let b = 228 * 0x80_0000nat;
    let m = pow2(250);
    assert(single().magnitude(b) == m);
    assert((2 * m) * q == 2 * (m * q)) by (nonlinear_arith);
    lemma_nearest_at_most(single(), Exact::Ratio { p, q }, b);
}

/// The number one, in units of the 32-bit format.
pub open spec fn one_32() -> nat {
    pow2(149)
}

/// The factor that a number of round trips is: one at least.
pub open spec fn factor_of(gamma: F32) -> int {
    if gamma.nan() || gamma.value() < one_32() {
        one_32() as int
    } else {
        gamma.value()
    }
}

/// The milliseconds of some round trips, rounded down: but for three parts in 2^24.
proof fn lemma_round_trips(gamma: F32, srtt: u32)
    requires
        srtt > 0,
        2 * (factor_of(gamma) * srtt) <= u32::MAX * one_32(),
    ensures
        ({
            let ms = gamma.larger(of_whole_32(1)).prod(of_whole_32(srtt as nat)).whole_u32();
            let p = factor_of(gamma) * srtt;
            &&& 0x100_0000 * (ms * one_32()) <= 0x100_0003 * p
            &&& 0x100_0000 * ((ms + 1) * one_32()) > 0xff_fffd * p
        }),
{
    lemma2_to64();
    lemma_pow2_pos(149);
    lemma_pow2_adds(64, 64);
    lemma_pow2_adds(128, 21);
    lemma_pow2_adds(149, 64);
    lemma_pow2_adds(213, 37);
    lemma_pow2_adds(32, 5);
    lemma_pow2_pos(21);
    let c = one_32() as int;
    let big = pow2(250) as int;
    assert(c >= 0x100_0000_0000);
    assert(big >= 0x100_0000_0000_0000_0000 * c) by (nonlinear_arith)
        requires
            big == (c * 0x1_0000_0000_0000_0000) * (0x1_0000_0000 * 32),
            c > 0,
    ;
    // one, and the round trip
    let x1 = Exact::Ratio { p: 1nat * pow2(149), q: 1 };
    lemma_magnitude_of_digits(single(), 126, 0x80_0000);
    lemma_pow2_adds(23, 126);
    let b1 = 127 * 0x80_0000nat;
    assert(single().magnitude(b1) == pow2(149));
    lemma_nearest_exact(single(), x1, b1);
    let w1 = of_whole_32(1);
    assert(w1.low() == b1 && w1.mag() == c && !w1.negative());
    let g = gamma.larger(w1);
    assert(!g.nan() && g.value() == factor_of(gamma));
    let f = g.mag() as int;
    assert(f * 1 <= f * srtt) by (nonlinear_arith)
        requires
            srtt >= 1,
            f >= 0,
    ;
    assert(f <= 0x1_0000_0000 * c);
    assert(!g.negative() && !g.infinite()) by {
        if g.infinite() {
            lemma_magnitude_of_digits(single(), 254, 0x80_0000);
            lemma_pow2_adds(23, 254);
            lemma_pow2_adds(250, 27);
            assert(single().magnitude(255 * 0x80_0000nat) == pow2(277));
            assert(pow2(277) >= big) by (nonlinear_arith)
                requires
                    pow2(277) == big * pow2(27),
                    pow2(27) >= 1,
                    big >= 0,
            ;
        }
    }
    let p1 = srtt as nat * pow2(149);
    assert(c <= p1 <= 0x1_0000_0000 * c) by (nonlinear_arith)
        requires
            p1 == srtt * c,
            1 <= srtt < 0x1_0000_0000,
            c > 0,
    ;
    assert(pow2(250) * 1 == pow2(250));
    lemma_finite_32(p1, 1);
    lemma_error(single(), p1, 1);
    let w = of_whole_32(srtt as nat);
    let v = w.mag() as int;
    assert(v * 1 == v);
    assert(0x100_0000 * (v - p1) <= p1 && 0x100_0000 * (p1 - v) <= p1);
    // their product
    let p2 = g.mag() * w.mag();
    assert(f * v >= 0x80_0000 * c && f * v <= big * c) by (nonlinear_arith)
        requires
            c <= f <= 0x1_0000_0000 * c,
            2 * v >= c,
            v <= 0x2_0000_0000 * c,
            c >= 0x100_0000_0000,
            big >= 0x100_0000_0000_0000_0000 * c,
    {
        assert(f * v >= c * v);
        assert(2 * (c * v) >= c * c);
        assert(f * v <= (0x1_0000_0000 * c) * v);
        assert((0x1_0000_0000 * c) * v <= (0x1_0000_0000 * c) * (0x2_0000_0000 * c));
    }
    lemma_finite_32(p2, pow2(149));
    lemma_error(single(), p2, pow2(149));
    let r = g.prod(w);
    assert(r.low() == single().nearest(Exact::Ratio { p: p2, q: pow2(149) }));
    let m = r.mag() as int;
    let q = f * v;
    assert(0x100_0000 * (m * c - q) <= q && 0x100_0000 * (q - m * c) <= q);
    let p = f * srtt;
    assert(0x100_0000 * (q - p * c) <= p * c && 0x100_0000 * (p * c - q) <= p * c)
        by (nonlinear_arith)
        requires
            0x100_0000 * (v - p1) <= p1,
            0x100_0000 * (p1 - v) <= p1,
            p1 == srtt * c,
            q == f * v,
            p == f * srtt,
            f >= 0,
    {
        assert(f * (0x100_0000 * (v - p1)) <= f * p1);
        assert(f * (0x100_0000 * (p1 - v)) <= f * p1);
        assert(f * p1 == p * c);
    }
    assert(p > 0) by (nonlinear_arith)
        requires
            p == f * srtt,
            f > 0,
            srtt > 0,
    ;
    let pc = p * c;
    assert(pc > 0) by (nonlinear_arith)
        requires
            pc == p * c,
            p > 0,
            c > 0,
    ;
    assert(0x100_0000 * (m * c) <= 0x100_0003 * pc - 1 && 0x100_0000 * (m * c) >= 0xff_fffd * pc
        + 1);
    assert(0x100_0000 * m <= 0x100_0003 * p && 0x100_0000 * m > 0xff_fffd * p) by (nonlinear_arith)
        requires
            0x100_0000 * (m * c) <= 0x100_0003 * pc - 1,
            0x100_0000 * (m * c) >= 0xff_fffd * pc + 1,
            pc == p * c,
            c > 0,
    ;
    // the whole part
    lemma_fundamental_div_mod(m, c);
    let k = m / c;
    assert(k <= u32::MAX) by (nonlinear_arith)
        requires
            m == c * k + m % c,
            0 <= m % c,
            0x100_0000 * m <= 0x100_0003 * p,
            2 * p <= 0xffff_ffff * c,
            c > 0,
    ;
    assert(k * c <= m < (k + 1) * c) by (nonlinear_arith)
        requires
            m == c * k + m % c,
            0 <= m % c < c,
    ;
    assert(r.mag() / pow2(149) == k);
}

/// Over a number of round trips, each of a slot at least, as many slots count as fit in, but for
/// rounding, and at least one and at most all.
pub proof fn law_slots_cover_the_round_trips(x: InFlight, srtt_ms: u32, gamma: F32)
    requires
        x.slot_ms > 0,
        x.recent.len() > 0,
        2 * (factor_of(gamma) * most(srtt_ms as int, x.slot_ms as int)) <= u32::MAX * one_32(),
    ensures
        ({
            let p = factor_of(gamma) * most(srtt_ms as int, x.slot_ms as int);
            let h = x.horizon(srtt_ms, gamma);
            &&& 1 <= h <= x.recent.len()
            &&& h > 1 ==> 0x100_0000 * ((h * x.slot_ms) * one_32()) <= 0x100_0003 * p
            &&& h < x.recent.len() ==> 0x100_0000 * (((h + 1) * x.slot_ms) * one_32()) > 0xff_fffd
                * p
        }),
{
    lemma_pow2_pos(149);
    let s = most(srtt_ms as int, x.slot_ms as int) as u32;
    lemma_round_trips(gamma, s);
    let ms = gamma.larger(of_whole_32(1)).prod(of_whole_32(s as nat)).whole_u32() as int;
    let k = x.slot_ms as int;
    let n = ms / k;
    lemma_fundamental_div_mod(ms, k);
    let c = one_32() as int;
    let p = factor_of(gamma) * s;
    let h = x.horizon(srtt_ms, gamma) as int;
    assert(n * k <= ms < (n + 1) * k && n >= 0) by (nonlinear_arith)
        requires
            ms == k * n + ms % k,
            0 <= ms % k < k,
            ms >= 0,
    ;
    if h > 1 {
        assert(h <= n);
        assert((h * k) * c <= ms * c) by (nonlinear_arith)
            requires
                h <= n,
                n * k <= ms,
                k > 0,
                c > 0,
        {
            assert(h * k <= n * k);
        }
    }
    if h < x.recent.len() {
        assert(h >= n);
        assert(((h + 1) * k) * c >= (ms + 1) * c) by (nonlinear_arith)
            requires
                h >= n,
                ms + 1 <= (n + 1) * k,
                k > 0,
                c > 0,
        {
            assert((h + 1) * k >= (n + 1) * k);
        }
    }
}

} // verus!
