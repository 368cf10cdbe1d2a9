//! The variation of latencies.
use vstd::arithmetic::div_mod::{
    lemma_div_multiples_vanish, lemma_fundamental_div_mod, lemma_fundamental_div_mod_converse,
    lemma_mod_add_multiples_vanish, lemma_mod_bound, lemma_small_mod,
};
use vstd::arithmetic::power2::lemma_pow2_pos;
use vstd::prelude::*;

use crate::num::bounds::lemma_step_size;
use crate::num::double::{lemma_double, lemma_mag_order, of_whole, signed};
use crate::num::exact::{lemma_whole_exact, one};
use crate::num::facts::lemma_zero_one;
use crate::num::format::{
    double, lemma_magnitude_monotone, lemma_nearest, lemma_nearest_at_least,
    lemma_nearest_below_middle, Exact,
};
use crate::stats::latency::{
    after, distance, last_latencies, law_window_holds_the_last_measurements, squares, sum_us,
    Latencies,
};

verus! {

/// The sum of the squared differences from `mean`.
pub open spec fn scatter(s: Seq<u32>, mean: int) -> int
    decreases s.len(),
{
    if s.len() == 0 {
        0
    } else {
        scatter(s.drop_last(), mean) + (s.last() - mean) * (s.last() - mean)
    }
}

proof fn lemma_scatter_is_squares(s: Seq<u32>, mean: u32)
    ensures
        squares(s, mean) == scatter(s, mean as int),
        scatter(s, mean as int) >= 0,
    decreases s.len(),
{
    if s.len() > 0 {
        lemma_scatter_is_squares(s.drop_last(), mean);
        let (x, m) = (s.last() as int, mean as int);
        let d = distance(x, m) as int;
        assert(d * d == (x - m) * (x - m)) by (nonlinear_arith)
            requires
                d == x - m || d == m - x,
        ;
        assert((x - m) * (x - m) >= 0) by (nonlinear_arith);
    }
}

proof fn lemma_scatter_update(s: Seq<u32>, at: int, v: u32, mean: int)
    requires
        0 <= at < s.len(),
    ensures
        scatter(s.update(at, v), mean) == scatter(s, mean) + (v - mean) * (v - mean) - (s[at]
            - mean) * (s[at] - mean),
    decreases s.len(),
{
    if at == s.len() - 1 {
        assert(s.update(at, v).drop_last() =~= s.drop_last());
    } else {
        lemma_scatter_update(s.drop_last(), at, v, mean);
        assert(s.update(at, v).drop_last() =~= s.drop_last().update(at, v));
    }
}

proof fn lemma_scatter_first(s: Seq<u32>, mean: int)
    requires
        s.len() > 0,
    ensures
        scatter(s, mean) == (s[0] - mean) * (s[0] - mean) + scatter(s.drop_first(), mean),
    decreases s.len(),
{
    if s.len() > 1 {
        lemma_scatter_first(s.drop_last(), mean);
        assert(s.drop_last().drop_first() =~= s.drop_first().drop_last());
        assert(s.drop_first().last() == s.last());
    } else {
        assert(s.drop_last() =~= s.drop_first());
        assert(s.drop_first() =~= seq![]);
    }
}

/// The measurements in a window scatter as the last ones of the history do.
proof fn lemma_window_scatter(size: nat, history: Seq<(u32, u64)>, mean: int)
    requires
        0 < size <= u32::MAX,
        history.len() <= u32::MAX,
    ensures
        ({
            let w = after(size, history);
            scatter(w.window.take(w.count as int), mean) == scatter(
                last_latencies(history, w.count as int),
                mean,
            )
        }),
    decreases history.len(),
{
    law_window_holds_the_last_measurements(size, history);
    let n = history.len() as int;
    let z = size as int;
    let w = after(size, history);
    if n == 0 {
        assert(w.window.take(0) =~= seq![]);
        assert(last_latencies(history, 0) =~= seq![]);
    } else {
        let front = history.drop_last();
        law_window_holds_the_last_measurements(size, front);
        lemma_window_scatter(size, front, mean);
        let v = after(size, front);
        let (x, ms) = history.last();
        let m = n - 1;
        let at = m % z;
        let (a, b) = (
            last_latencies(front, v.count as int),
            last_latencies(history, w.count as int),
        );
        if m < z {
            lemma_small_mod(m as nat, size);
            assert(w.window.take(m + 1).drop_last() =~= v.window.take(m));
            assert(w.window.take(m + 1).last() == x);
            assert(b.drop_last() =~= a);
        } else {
            let o = m - z;
            lemma_mod_add_multiples_vanish(o, z);
            assert(o % z == at);
            assert(v.window[o % z] == front[o].0);
            assert(v.window.take(z) =~= v.window);
            assert(w.window.take(z) =~= w.window);
            lemma_scatter_update(v.window, at, x, mean);
            lemma_scatter_first(a, mean);
            assert(b.drop_last() =~= a.drop_first());
        }
        assert(b.last() == x);
    }
}

/// The root of a whole number below 2^52 is rounded to a number with the same whole part.
pub proof fn lemma_whole_root(m: nat, d: nat)
    requires
        m < 0x10_0000_0000_0000,
        d * d <= m < (d + 1) * (d + 1),
    ensures
        of_whole(m).square_root().whole_u32() == d,
{
    lemma_double();
    lemma_pow2_pos(1074);
    lemma_whole_exact(m);
    let c = one();
    let e = d + 1;
    assert(d < 0x400_0000) by (nonlinear_arith)
        requires
            d * d <= m,
            m < 0x10_0000_0000_0000,
            d >= 0,
    ;
    lemma_whole_exact(d);
    lemma_whole_exact(e);
    if m == 0 {
        assert(d == 0) by (nonlinear_arith)
            requires
                d * d <= 0,
                d >= 0,
        ;
        lemma_mag_order(of_whole(0), of_whole(0));
        assert(0nat * c == 0);
        assert(0nat / c == 0) by (nonlinear_arith)
            requires
                c > 0,
        ;
    } else {
        let n = (m * c) * c;
        let x = Exact::Root { n };
        lemma_nearest(double(), x);
        let r = double().nearest(x);
        let lo = of_whole(d).low();
        let hi = of_whole(e).low();
        let y = 2 * (d * c);
        assert(4 * n - y * y >= 0) by (nonlinear_arith)
            requires
                n == (m * c) * c,
                y == 2 * (d * c),
                d * d <= m,
        {
            assert(y * y == 4 * ((d * d) * (c * c)));
            assert((d * d) * (c * c) <= m * (c * c));
            assert(n == m * (c * c));
        }
        lemma_nearest_at_least(double(), x, lo);
        let b = (hi - 1) as nat;
        lemma_mag_order(of_whole(1), of_whole(e));
        lemma_whole_exact(1);
        lemma_mag_order(of_whole(e), of_whole(1));
        assert(e * c >= c) by (nonlinear_arith)
            requires
                e >= 1,
        ;
        lemma_zero_one();
        lemma_step_size(double(), b);
        let (p, q) = (double().magnitude(b), double().magnitude(hi));
        lemma_magnitude_monotone(double(), b, hi);
        let s = q - p;
        assert(q == e * c);
        assert(e * s <= c) by (nonlinear_arith)
            requires
                0x10_0000_0000_0000 * s <= p,
                p < q,
                q == e * c,
                s == q - p,
                e <= 0x400_0000,
        {
            assert(0x10_0000_0000_0000 * s <= e * c);
            assert((0x10_0000_0000_0000 * s) * e <= (e * c) * e);
            assert((e * c) * e == (e * e) * c);
            assert(e * e <= 0x10_0000_0000_0000);
            assert((e * e) * c <= 0x10_0000_0000_0000 * c);
        }
        let t = p + q;
        assert(4 * n - t * t < 0) by (nonlinear_arith)
            requires
                n == (m * c) * c,
                t == p + q,
                q == e * c,
                s == q - p,
                s > 0,
                e * s <= c,
                m <= e * e - 1,
                c > 0,
                e >= 1,
        {
            assert(t == 2 * (e * c) - s);
            assert(t * t == 4 * ((e * e) * (c * c)) - 4 * ((e * s) * c) + s * s);
            assert((e * s) * c <= c * c);
            assert(n == m * (c * c));
            assert(m * (c * c) <= (e * e - 1) * (c * c));
            assert((e * e - 1) * (c * c) == (e * e) * (c * c) - c * c);
            assert(s * s > 0);
        }
        lemma_nearest_below_middle(double(), x, b);
        let root = of_whole(m).square_root();
        assert(root == signed(false, r));
        lemma_mag_order(of_whole(d), root);
        lemma_mag_order(root, of_whole(e));
        lemma_mag_order(root, signed(false, b));
        let g = root.mag();
        assert(d * c <= g < e * c);
        assert(d * c == c * d) by (nonlinear_arith);
        assert(e * c == d * c + c) by (nonlinear_arith)
            requires
                e == d + 1,
        ;
        lemma_fundamental_div_mod_converse(g as int, c as int, d as int, g - d * c);
    }
}

/// The last measurements of a history, as many as a window of `size` holds.
pub open spec fn held(size: nat, history: Seq<(u32, u64)>) -> Seq<u32> {
    last_latencies(
        history,
        if history.len() < size {
            history.len() as int
        } else {
            size as int
        },
    )
}

/// The mean of measurements, rounded down.
pub open spec fn mean_of(s: Seq<u32>) -> int {
    sum_us(s) as int / s.len() as int
}

/// The variation is the whole root of the mean square, wherever that is below 2^52: of the
/// squared differences of the last measurements from their mean, as many as the window holds.
pub proof fn law_variation_is_the_root_of_the_mean_square(
    size: nat,
    history: Seq<(u32, u64)>,
    d: nat,
)
    requires
        0 < size <= u32::MAX,
        0 < history.len() <= u32::MAX,
        sum_us(held(size, history)) <= u32::MAX,
        ({
            let s = held(size, history);
            let mean_square = scatter(s, mean_of(s)) / s.len() as int;
            &&& mean_square < 0x10_0000_0000_0000
            &&& d * d <= mean_square < (d + 1) * (d + 1)
        }),
    ensures
        after(size, history).deviation() == d,
{
    law_window_holds_the_last_measurements(size, history);
    let w = after(size, history);
    let k = w.count as int;
    let s = held(size, history);
    assert(s == last_latencies(history, k));
    assert(s.len() == k);
    let mean = mean_of(s);
    assert(w.mean() == mean);
    lemma_window_scatter(size, history, mean);
    lemma_scatter_is_squares(w.window.take(k), w.mean());
    lemma_whole_root((scatter(s, mean) / k) as nat, d);
}

/// The mean is that of the running sum, which is kept to 32 bits, over as many measurements as the
/// window holds.
pub proof fn law_mean_is_of_the_running_sum(size: nat, history: Seq<(u32, u64)>)
    requires
        0 < size <= u32::MAX,
        0 < history.len() <= u32::MAX,
    ensures
        ({
            let s = held(size, history);
            let m = after(size, history).mean() as int;
            let rest = (sum_us(s) % 0x1_0000_0000) as int;
            m * s.len() <= rest < (m + 1) * s.len()
        }),
{
    law_window_holds_the_last_measurements(size, history);
    let w = after(size, history);
    let s = held(size, history);
    let k = w.count as int;
    assert(s == last_latencies(history, k));
    let rest = w.sum as int;
    lemma_fundamental_div_mod(rest, k);
    lemma_mod_bound(rest, k);
    let m = rest / k;
    assert(w.mean() == m);
    assert(m * k <= rest < (m + 1) * k) by (nonlinear_arith)
        requires
            rest == k * m + rest % k,
            0 <= rest % k < k,
    ;
}

/// Every measurement is at the distance `d` from `mean`.
pub open spec fn even(s: Seq<u32>, mean: int, d: nat) -> bool {
    forall|i: int| 0 <= i < s.len() ==> #[trigger] s[i] == mean + d || s[i] == mean - d
}

/// Where every measurement is at the same distance from the mean, the variation is that
/// distance.
pub proof fn law_even_variation(size: nat, history: Seq<(u32, u64)>, d: nat)
    requires
        0 < size <= u32::MAX,
        0 < history.len() <= u32::MAX,
        d < 0x400_0000,
        sum_us(held(size, history)) <= u32::MAX,
        even(held(size, history), mean_of(held(size, history)), d),
    ensures
        after(size, history).deviation() == d,
{
    let s = held(size, history);
    let k = s.len() as int;
    lemma_even_scatter(s, mean_of(s), d);
    lemma_div_multiples_vanish((d * d) as int, k);
    assert(d * d < (d + 1) * (d + 1) && d * d < 0x10_0000_0000_0000) by (nonlinear_arith)
        requires
            0 <= d < 0x400_0000,
    ;
    law_variation_is_the_root_of_the_mean_square(size, history, d);
}

proof fn lemma_even_scatter(s: Seq<u32>, mean: int, d: nat)
    requires
        even(s, mean, d),
    ensures
        scatter(s, mean) == s.len() * (d * d),
    decreases s.len(),
{
    if s.len() > 0 {
        let front = s.drop_last();
        assert forall|i: int| 0 <= i < front.len() implies #[trigger] front[i] == mean + d
            || front[i] == mean - d by {
            assert(s[i] == front[i]);
        }
        lemma_even_scatter(front, mean, d);
        let x = s[s.len() - 1] as int;
        assert(x == mean + d || x == mean - d);
        assert((x - mean) * (x - mean) == d * d) by (nonlinear_arith)
            requires
                x - mean == d || x - mean == -d,
        ;
        let (n, q) = (s.len() as int, (d * d) as int);
        assert((n - 1) * q + q == n * q) by (nonlinear_arith);
    } else {
        assert(0 * (d * d) == 0) by (nonlinear_arith);
    }
}

/// What a window tells of its least latency, in terms of its places: it is at one of them, and no
/// latency that counts is below it; there is none if no latency counts.
pub open spec fn tells_least(w: Latencies, r: u32) -> bool {
    &&& forall|i: int|
        0 <= i < w.count && Latencies::proper(#[trigger] w.window[i]) ==> 0 < r <= w.window[i]
    &&& r != 0 ==> Latencies::proper(r) && exists|i: int|
        0 <= i < w.count && #[trigger] w.window[i] == r
}

/// The least latency is that of the last measurements, as many as the window holds, without those
/// of zero and of the largest number; it is zero if there are no others.
pub proof fn law_least_latency_is_of_the_last_measurements(
    size: nat,
    history: Seq<(u32, u64)>,
    r: u32,
)
    requires
        0 < size <= u32::MAX,
        history.len() <= u32::MAX,
        tells_least(after(size, history), r),
    ensures
        forall|i: int|
            0 <= i < held(size, history).len() && (#[trigger] held(size, history)[i]) != 0 && held(
                size,
                history,
            )[i] != u32::MAX ==> 0 < r <= held(size, history)[i],
        r != 0 ==> r != u32::MAX && held(size, history).contains(r),
{
    law_window_holds_the_last_measurements(size, history);
    let w = after(size, history);
    let s = held(size, history);
    let (n, k, z) = (history.len() as int, w.count as int, size as int);
    assert forall|i: int| 0 <= i < s.len() && (#[trigger] s[i]) != 0 && s[i] != u32::MAX implies 0
        < r <= s[i] by {
        let j = n - k + i;
        assert(w.window[j % z] == history[j].0);
        lemma_mod_bound(j, z);
        if n < z {
            lemma_small_mod(j as nat, size);
        }
        assert(Latencies::proper(w.window[j % z]));
    }
    if r != 0 {
        let i = choose|i: int| 0 <= i < w.count && #[trigger] w.window[i] == r;
        let j = lemma_measured_at(n, k, z, i);
        assert(w.window[j % z] == history[j].0);
        assert(s[j - (n - k)] == r);
    }
}

/// The measurement that is held at the place `i`.
proof fn lemma_measured_at(n: int, k: int, z: int, i: int) -> (j: int)
    requires
        z > 0,
        n >= 0,
        k == if n < z {
            n
        } else {
            z
        },
        0 <= i < k,
    ensures
        n - k <= j < n,
        j % z == i,
{
    if n < z {
        lemma_small_mod(i as nat, z as nat);
        i
    } else {
        // the last measurement with the right remainder
        let d = n - 1 - i;
        lemma_fundamental_div_mod(d, z);
        let q = d / z;
        let j = i + z * q;
        assert(d % z == d - z * q);
        lemma_mod_bound(d, z);
        lemma_fundamental_div_mod_converse(j, z, q, i);
        j
    }
}

} // verus!
