//! The least share of every path.
use vstd::arithmetic::power2::lemma_pow2_pos;
use vstd::prelude::*;

use crate::multipath_scheduler::plan::{shares, shares_of, sum_of, total};
use crate::multipath_scheduler::weights::{
    adds_up_within, exact_sum, lemma_one_is_large, lemma_parts_at_most, lemma_shares_add_up,
    lemma_total_finite, lemma_unit_product, unit,
};
use crate::num::bounds::{
    lemma_error, lemma_order, lemma_prod_monotone, lemma_prod_pattern, lemma_quot_pattern,
    lemma_units_at_most, lemma_units_error,
};
use crate::num::double::{lemma_double, lemma_mag_order, of_whole, signed, F64};
use crate::num::exact::{lemma_whole_exact, one};
use crate::num::facts::{lemma_nearest_exact, lemma_zero_one};
use crate::num::format::{double, lemma_nearest, Exact};

verus! {

/// There is enough to grant each of `n` paths the least share.
pub open spec fn grantable(n: nat, least: F64) -> bool {
    of_whole(n).prod(least).at_most(of_whole(1))
}

/// How many paths are held at the least share.
pub open spec fn count(held: Seq<bool>) -> nat
    decreases held.len(),
{
    if held.len() == 0 {
        0
    } else if held.last() {
        count(held.drop_last()) + 1
    } else {
        count(held.drop_last())
    }
}

/// The weights of the paths that are not held, and zero for those that are.
pub open spec fn unheld(ws: Seq<F64>, held: Seq<bool>) -> Seq<F64> {
    Seq::new(
        ws.len(),
        |i: int|
            if held[i] {
                signed(false, 0)
            } else {
                ws[i]
            },
    )
}

/// What the paths that are held leave to the others.
pub open spec fn left_over(held: Seq<bool>, least: F64) -> F64 {
    of_whole(1).diff(of_whole(count(held)).prod(least))
}

/// The least share for the paths that are held, and what that leaves for the others, in
/// proportion to their weights.
pub open spec fn spread(ws: Seq<F64>, held: Seq<bool>, least: F64) -> Seq<F64> {
    let parts = shares(unheld(ws, held), total(unheld(ws, held)));
    Seq::new(
        ws.len(),
        |i: int|
            if held[i] {
                least
            } else {
                parts[i].prod(left_over(held, least))
            },
    )
}

/// The paths that are held, together with those whose weight is below the least share.
pub open spec fn holding(ws: Seq<F64>, held: Seq<bool>, least: F64) -> Seq<bool> {
    Seq::new(ws.len(), |i: int| held[i] || ws[i].less(least))
}

/// Weights with some paths held at the least share, and with them every path that this makes
/// fall below it.
pub open spec fn lifted(ws: Seq<F64>, held: Seq<bool>, least: F64) -> Seq<F64>
    decreases ws.len() - count(held),
{
    let next = spread(ws, held, least);
    let more = holding(next, held, least);
    if count(more) <= count(held) {
        next
    } else {
        proof {
            lemma_count(more);
        }
        lifted(ws, more, least)
    }
}

/// Weights with the least share granted to every path. Where none is below it, the weights stay
/// as they are.
pub open spec fn granted(ws: Seq<F64>, least: F64) -> Seq<F64> {
    let held = Seq::new(ws.len(), |i: int| ws[i].less(least));
    if count(held) == 0 {
        ws
    } else {
        lifted(ws, held, least)
    }
}

/// No more paths are held than there are.
pub proof fn lemma_count(held: Seq<bool>)
    ensures
        count(held) <= held.len(),
        count(held) == 0 ==> forall|i: int| 0 <= i < held.len() ==> !#[trigger] held[i],
        count(held) == held.len() ==> forall|i: int| 0 <= i < held.len() ==> #[trigger] held[i],
    decreases held.len(),
{
    if held.len() > 0 {
        let front = held.drop_last();
        lemma_count(front);
        assert forall|i: int| 0 <= i < held.len() implies (count(held) == 0 ==> !#[trigger] held[i])
            && (count(held) == held.len() ==> held[i]) by {
            if i < front.len() {
                assert(front[i] == held[i]);
            }
        }
    }
}

/// Holding more paths without holding a greater number changes nothing.
proof fn lemma_count_more(held: Seq<bool>, more: Seq<bool>)
    requires
        held.len() == more.len(),
        forall|i: int| 0 <= i < held.len() && #[trigger] held[i] ==> more[i],
    ensures
        count(held) <= count(more),
        count(more) == count(held) ==> forall|i: int|
            0 <= i < held.len() ==> #[trigger] more[i] == held[i],
    decreases held.len(),
{
    if held.len() > 0 {
        let (a, b) = (held.drop_last(), more.drop_last());
        assert forall|i: int| 0 <= i < a.len() && #[trigger] a[i] implies b[i] by {
            assert(held[i]);
        }
        lemma_count_more(a, b);
        assert(held[held.len() - 1] ==> more[held.len() - 1]);
        assert forall|i: int|
            0 <= i < held.len() && count(more) == count(held) implies #[trigger] more[i]
            == held[i] by {
            if i < a.len() {
                assert(b[i] == more[i] && a[i] == held[i]);
            }
        }
    }
}

/// The least share for the paths that are held, and what that leaves for the others.
fn spread_over(ws: &Vec<F64>, held: &Vec<bool>, number: usize, least: &F64) -> (r: Vec<F64>)
    requires
        held.len() == ws.len(),
        number == count(held@),
    ensures
        r@ == spread(ws@, held@, *least),
{
    let mut free: Vec<F64> = Vec::new();
    let mut i: usize = 0;
    while i < ws.len()
        invariant
            i <= ws.len(),
            held.len() == ws.len(),
            free.len() == i,
            forall|j: int| 0 <= j < i ==> #[trigger] free@[j] == unheld(ws@, held@)[j],
        decreases ws.len() - i,
    {
        free.push(if held[i] {
            F64::zero()
        } else {
            ws[i]
        });
        i = i + 1;
    }
    assert(free@ =~= unheld(ws@, held@));
    let sum = sum_of(&free);
    let parts = shares_of(&free, &sum);
    let left = F64::from_u64(1).minus(&F64::from_u64(number as u64).times(least));
    let mut out: Vec<F64> = Vec::new();
    let mut k: usize = 0;
    while k < ws.len()
        invariant
            k <= ws.len(),
            held.len() == ws.len(),
            parts@ == shares(unheld(ws@, held@), total(unheld(ws@, held@))),
            left == left_over(held@, *least),
            out.len() == k,
            forall|j: int| 0 <= j < k ==> #[trigger] out@[j] == spread(ws@, held@, *least)[j],
        decreases ws.len() - k,
    {
        out.push(if held[k] {
            *least
        } else {
            parts[k].times(&left)
        });
        k = k + 1;
    }
    assert(out@ =~= spread(ws@, held@, *least));
    out
}

/// The paths that are held, together with those whose weight is below the least share, and how
/// many they are.
fn hold(ws: &Vec<F64>, held: &Vec<bool>, least: &F64) -> (r: (Vec<bool>, usize))
    requires
        held.len() == ws.len(),
    ensures
        r.0@ == holding(ws@, held@, *least),
        r.1 == count(r.0@),
{
    let mut out: Vec<bool> = Vec::new();
    let mut number: usize = 0;
    let mut i: usize = 0;
    while i < ws.len()
        invariant
            i <= ws.len(),
            held.len() == ws.len(),
            out.len() == i,
            number == count(out@),
            number <= i,
            forall|j: int| 0 <= j < i ==> #[trigger] out@[j] == holding(ws@, held@, *least)[j],
        decreases ws.len() - i,
    {
        let below: bool = held[i] || ws[i].lt(least);
        let ghost before = out@;
        out.push(below);
        assert(out@.drop_last() =~= before);
        if below {
            number = number + 1;
        }
        i = i + 1;
    }
    assert(out@ =~= holding(ws@, held@, *least));
    (out, number)
}

/// Weights with the least share granted to every path.
pub fn grant(ws: Vec<F64>, least: &F64) -> (r: Vec<F64>)
    ensures
        r@ == granted(ws@, *least),
{
    let mut none: Vec<bool> = Vec::new();
    let mut i: usize = 0;
    while i < ws.len()
        invariant
            i <= ws.len(),
            none.len() == i,
            forall|j: int| 0 <= j < i ==> !#[trigger] none@[j],
        decreases ws.len() - i,
    {
        none.push(false);
        i = i + 1;
    }
    let (first, first_number) = hold(&ws, &none, least);
    assert(first@ =~= Seq::new(ws@.len(), |i: int| ws@[i].less(*least)));
    if first_number == 0 {
        return ws;
    }
    let mut held: Vec<bool> = first;
    let mut number: usize = first_number;
    loop
        invariant
            held.len() == ws.len(),
            number == count(held@),
            granted(ws@, *least) == lifted(ws@, held@, *least),
        decreases ws.len() - number,
    {
        let next = spread_over(&ws, &held, number, least);
        let (more, more_number) = hold(&next, &held, least);
        if more_number <= number {
            return next;
        }
        proof {
            lemma_count(more@);
        }
        held = more;
        number = more_number;
    }
}

/// Granting the least share keeps the number of weights.
pub proof fn lemma_granted_len(ws: Seq<F64>, least: F64)
    ensures
        granted(ws, least).len() == ws.len(),
{
    lemma_lifted_len(ws, Seq::new(ws.len(), |i: int| ws[i].less(least)), least);
}

proof fn lemma_lifted_len(ws: Seq<F64>, held: Seq<bool>, least: F64)
    ensures
        lifted(ws, held, least).len() == ws.len(),
    decreases ws.len() - count(held),
{
    let more = holding(spread(ws, held, least), held, least);
    if count(more) > count(held) {
        lemma_count(more);
        lemma_lifted_len(ws, more, least);
    }
}

/// The sum of numbers of which some are replaced by the least share, having been zero.
proof fn lemma_mixed_sum(ps: Seq<F64>, ws: Seq<F64>, held: Seq<bool>, least: F64)
    requires
        ps.len() == held.len(),
        ws.len() == held.len(),
        forall|i: int|
            0 <= i < held.len() ==> ws[i] == if #[trigger] held[i] {
                least
            } else {
                ps[i]
            },
        forall|i: int| 0 <= i < held.len() && #[trigger] held[i] ==> ps[i].value() == 0,
    ensures
        exact_sum(ws) == count(held) * least.value() + exact_sum(ps),
    decreases held.len(),
{
    if held.len() == 0 {
        assert(0 * least.value() == 0) by (nonlinear_arith);
    } else {
        let (p, w, h) = (ps.drop_last(), ws.drop_last(), held.drop_last());
        assert forall|i: int| 0 <= i < h.len() implies w[i] == if #[trigger] h[i] {
            least
        } else {
            p[i]
        } by {
            assert(held[i] == h[i]);
        }
        assert forall|i: int| 0 <= i < h.len() && #[trigger] h[i] implies p[i].value() == 0 by {
            assert(held[i]);
        }
        lemma_mixed_sum(p, w, h, least);
        let k = held.len() - 1;
        assert(held[k] ==> ws[k] == least && ps[k].value() == 0);
        assert(!held[k] ==> ws[k] == ps[k]);
        let (c, v) = (count(h) as int, least.value());
        assert((c + 1) * v == c * v + v) by (nonlinear_arith);
    }
}

/// Each number times `by`.
spec fn scaled(ps: Seq<F64>, by: F64) -> Seq<F64> {
    Seq::new(ps.len(), |i: int| ps[i].prod(by))
}

/// The error of a product of two shares.
proof fn lemma_product_error(x: F64, by: F64)
    requires
        unit(x),
        unit(by),
    ensures
        unit(x.prod(by)),
        ({
            let (w, p, c) = (x.prod(by).mag(), x.mag() * by.mag(), one());
            &&& 0x20_0000_0000_0000 * (w * c - p) <= p + 0x10_0000_0000_0000 * c
            &&& 0x20_0000_0000_0000 * (p - w * c) <= p + 0x10_0000_0000_0000 * c
        }),
{
    lemma_double();
    lemma_pow2_pos(1074);
    lemma_unit_product(x, by);
    lemma_prod_pattern(x, by);
    let (w, p, c) = (x.prod(by).mag(), x.mag() * by.mag(), one());
    lemma_error(double(), p, c);
    let h = double().hidden;
    assert(0x20_0000_0000_0000 * (w * c - p) <= p + 0x10_0000_0000_0000 * c && 0x20_0000_0000_0000
        * (p - w * c) <= p + 0x10_0000_0000_0000 * c) by (nonlinear_arith)
        requires
            h == 0x10_0000_0000_0000,
            w * c >= p ==> (2 * h * (w * c - p) <= p || 2 * (w * c - p) <= c),
            w * c < p ==> (2 * h * (p - w * c) <= p || 2 * (p - w * c) <= c),
            c >= 0,
            p >= 0,
    ;
}

/// The error of a sum of products.
proof fn lemma_scaled_error(ps: Seq<F64>, by: F64)
    requires
        forall|i: int| 0 <= i < ps.len() ==> unit(#[trigger] ps[i]),
        unit(by),
    ensures
        forall|i: int| 0 <= i < ps.len() ==> unit(#[trigger] scaled(ps, by)[i]),
        exact_sum(ps) >= 0,
        ({
            let (w, x, l, c) = (exact_sum(scaled(ps, by)), exact_sum(ps), by.mag(), one());
            let n = ps.len();
            &&& 0x20_0000_0000_0000 * (w * c - x * l) <= x * l + (n * 0x10_0000_0000_0000) * c
            &&& 0x20_0000_0000_0000 * (x * l - w * c) <= x * l + (n * 0x10_0000_0000_0000) * c
        }),
    decreases ps.len(),
{
    let all = scaled(ps, by);
    if ps.len() == 0 {
        assert(0 * one() == 0 && 0 * by.mag() == 0) by (nonlinear_arith);
    } else {
        let front = ps.drop_last();
        assert forall|i: int| 0 <= i < front.len() implies unit(#[trigger] front[i]) by {
            assert(unit(ps[i]));
        }
        lemma_scaled_error(front, by);
        assert(all.drop_last() =~= scaled(front, by));
        assert(unit(ps[ps.len() - 1]));
        lemma_product_error(ps.last(), by);
        assert forall|i: int| 0 <= i < ps.len() implies unit(#[trigger] all[i]) by {
            if i < front.len() {
                assert(unit(scaled(front, by)[i]));
            }
        }
        let (a, b) = (exact_sum(scaled(front, by)), exact_sum(front));
        let (w, m) = (all.last().mag() as int, ps.last().mag() as int);
        let (l, c, n) = (by.mag() as int, one() as int, ps.len() as int);
        assert(0x20_0000_0000_0000 * ((a + w) * c - (b + m) * l) <= (b + m) * l + (n
            * 0x10_0000_0000_0000) * c && 0x20_0000_0000_0000 * ((b + m) * l - (a + w) * c) <= (b
            + m) * l + (n * 0x10_0000_0000_0000) * c) by (nonlinear_arith)
            requires
                0x20_0000_0000_0000 * (a * c - b * l) <= b * l + ((n - 1) * 0x10_0000_0000_0000)
                    * c,
                0x20_0000_0000_0000 * (b * l - a * c) <= b * l + ((n - 1) * 0x10_0000_0000_0000)
                    * c,
                0x20_0000_0000_0000 * (w * c - m * l) <= m * l + 0x10_0000_0000_0000 * c,
                0x20_0000_0000_0000 * (m * l - w * c) <= m * l + 0x10_0000_0000_0000 * c,
        ;
    }
}

/// A number of paths times the least share, where there is enough for all of them.
proof fn lemma_taken(k: nat, n: nat, least: F64)
    requires
        k <= n < 0x20_0000_0000_0000,
        least.plain(),
        grantable(n, least),
    ensures
        unit(of_whole(k).prod(least)),
        ({
            let (p, x) = (of_whole(k).prod(least).mag(), k * least.mag());
            &&& 0x20_0000_0000_0000 * (p - x) <= x + 0x10_0000_0000_0000
            &&& 0x20_0000_0000_0000 * (x - p) <= x + 0x10_0000_0000_0000
            &&& x <= 2 * one()
            &&& 0x20_0000_0000_0000 * (x - one()) <= 2 * one()
        }),
{
    lemma_double();
    lemma_pow2_pos(1074);
    lemma_zero_one();
    lemma_whole_exact(k);
    lemma_whole_exact(n);
    lemma_whole_exact(1);
    lemma_mag_order(of_whole(k), of_whole(n));
    lemma_mag_order(of_whole(n), of_whole(k));
    assert(k * one() <= n * one()) by (nonlinear_arith)
        requires
            k <= n,
    ;
    lemma_prod_monotone(of_whole(k), least, of_whole(n), least);
    let r = of_whole(k).prod(least);
    lemma_order(of_whole(n).prod(least), of_whole(1));
    lemma_order(r, of_whole(1));
    lemma_mag_order(r, of_whole(1));
    lemma_prod_pattern(of_whole(k), least);
    let (c, m, p) = (one(), least.mag(), r.mag());
    let q = (k * c) * m;
    let x = k * m;
    lemma_error(double(), q, c);
    lemma_one_is_large();
    let h = double().hidden;
    assert(q == x * c) by (nonlinear_arith)
        requires
            q == (k * c) * m,
            x == k * m,
    ;
    assert(0x20_0000_0000_0000 * (p - x) <= x + 0x10_0000_0000_0000 && 0x20_0000_0000_0000 * (x
        - p) <= x + 0x10_0000_0000_0000) by (nonlinear_arith)
        requires
            h == 0x10_0000_0000_0000,
            q == x * c,
            p * c >= q ==> (2 * h * (p * c - q) <= q || 2 * (p * c - q) <= c),
            p * c < q ==> (2 * h * (q - p * c) <= q || 2 * (q - p * c) <= c),
            c > 0,
            x >= 0,
    {
        assert(p * c - q == (p - x) * c);
        assert(q - p * c == (x - p) * c);
        let u = 0x20_0000_0000_0000int;
        let v = 0x10_0000_0000_0000int;
        if p * c >= q {
            assert((u * (p - x)) * c <= (x + v) * c);
            assert(p >= x);
        } else {
            assert((u * (x - p)) * c <= (x + v) * c);
            assert(x >= p);
        }
    }
}

/// Shares of which those that are not held are at least the least share, for all of which there
/// is enough.
spec fn liftable(ws: Seq<F64>, held: Seq<bool>, least: F64) -> bool {
    &&& 0 < ws.len() <= 0x4_0000_0000_0000
    &&& held.len() == ws.len()
    &&& unit(least)
    &&& least.low() > 0
    &&& grantable(ws.len(), least)
    &&& forall|i: int| 0 <= i < ws.len() ==> unit(#[trigger] ws[i])
    &&& forall|i: int| 0 <= i < ws.len() && !held[i] ==> least.at_most(#[trigger] ws[i])
}

/// What is left over, with its error.
pub proof fn lemma_left_over(held: Seq<bool>, n: nat, least: F64)
    requires
        count(held) <= n <= 0x4_0000_0000_0000,
        least.plain(),
        grantable(n, least),
    ensures
        unit(left_over(held, least)),
        ({
            let (l, x, c) = (left_over(held, least).mag(), count(held) * least.mag(), one());
            &&& 0x20_0000_0000_0000 * (l + x - c) <= 4 * c
            &&& 0x20_0000_0000_0000 * (c - l - x) <= 4 * c
        }),
{
    lemma_double();
    lemma_zero_one();
    lemma_one_is_large();
    let k = count(held);
    lemma_taken(k, n, least);
    let a = of_whole(k).prod(least);
    lemma_order(a, of_whole(1));
    lemma_mag_order(a, of_whole(1));
    let s = (one() - a.mag()) as nat;
    let neg = a.negated();
    assert(neg.value() == -(a.mag() as int));
    lemma_nearest(double(), Exact::Ratio { p: s, q: 1 });
    lemma_units_at_most(s, of_whole(1).low());
    lemma_units_error(s);
    let left = left_over(held, least);
    if s == 0 {
        assert(left == signed(false, 0));
    }
    lemma_order(left, of_whole(1));
    lemma_mag_order(left, signed(false, 0));
}

/// Spreading what is left over the paths that are not held gives shares that add up to one.
proof fn lemma_spread(ws: Seq<F64>, held: Seq<bool>, least: F64)
    requires
        liftable(ws, held, least),
        count(held) < ws.len(),
    ensures
        forall|i: int| 0 <= i < ws.len() ==> unit(#[trigger] spread(ws, held, least)[i]),
        adds_up_within(spread(ws, held, least), 6 * ws.len() + 8),
{
    lemma_double();
    lemma_zero_one();
    lemma_pow2_pos(1074);
    lemma_one_is_large();
    let free = unheld(ws, held);
    let whole = total(free);
    let parts = shares(free, whole);
    let left = left_over(held, least);
    let out = spread(ws, held, least);
    assert forall|i: int| 0 <= i < free.len() implies (#[trigger] free[i]).plain() && free[i].mag()
        <= 2 * one() by {
        assert(unit(ws[i]));
        lemma_order(ws[i], of_whole(1));
        lemma_mag_order(ws[i], of_whole(1));
    }
    lemma_total_finite(free);
    assert(exists|k: int| 0 <= k < held.len() && !held[k]) by {
        if forall|k: int| 0 <= k < held.len() ==> held[k] {
            lemma_all_held(held);
        }
    }
    let k = choose|k: int| 0 <= k < held.len() && !held[k];
    assert(least.at_most(ws[k]) && unit(ws[k]));
    lemma_order(least, ws[k]);
    lemma_parts_at_most(free, k);
    lemma_order(whole, whole);
    lemma_shares_add_up(free);
    lemma_left_over(held, ws.len(), least);
    lemma_scaled_error(parts, left);
    let ps = scaled(parts, left);
    assert forall|i: int| 0 <= i < held.len() && #[trigger] held[i] implies ps[i].value() == 0 by {
        lemma_nothing(whole, left);
    }
    assert forall|i: int| 0 <= i < held.len() implies out[i] == if #[trigger] held[i] {
        least
    } else {
        ps[i]
    } by {
    }
    lemma_mixed_sum(ps, out, held, least);
    assert forall|i: int| 0 <= i < ws.len() implies unit(#[trigger] out[i]) by {
        assert(unit(ps[i]));
        assert(held[i] ==> out[i] == least);
    }
    let (w, x, l, c, n) = (
        exact_sum(ps),
        exact_sum(parts),
        left.mag() as int,
        one() as int,
        ws.len() as int,
    );
    lemma_order(left, of_whole(1));
    lemma_mag_order(left, of_whole(1));
    let u = 0x20_0000_0000_0000int;
    assert(x <= 2 * c) by (nonlinear_arith)
        requires
            u * (x - c) <= (5 * n + 2) * c,
            u == 0x20_0000_0000_0000,
            n <= 0x4_0000_0000_0000,
            c >= 0,
    ;
    let (wc, xl, lc, k) = (w * c, x * l, l * c, (5 * n + 2) * c);
    assert(u * (xl - lc) <= k * c && u * (lc - xl) <= k * c) by (nonlinear_arith)
        requires
            xl == x * l,
            lc == l * c,
            u * (x - c) <= k,
            u * (c - x) <= k,
            0 <= l <= c,
            k >= 0,
    {
        assert(xl - lc == (x - c) * l);
        assert((u * (x - c)) * l <= k * l);
        assert((u * (c - x)) * l <= k * l);
        assert(k * l <= k * c);
    }
    assert(xl <= (2 * c) * c) by (nonlinear_arith)
        requires
            xl == x * l,
            0 <= x <= 2 * c,
            0 <= l <= c,
    ;
    assert((n * 0x10_0000_0000_0000) * c <= (n * c) * c) by (nonlinear_arith)
        requires
            n >= 0,
            c >= 0x10_0000_0000_0000,
    ;
    assert((2 * c) * c + (n * c) * c + k * c == ((6 * n + 4) * c) * c) by (nonlinear_arith)
        requires
            k == (5 * n + 2) * c,
    ;
    assert((u * (w - l)) * c == u * (wc - lc) && (u * (l - w)) * c == u * (lc - wc))
        by (nonlinear_arith)
        requires
            wc == w * c,
            lc == l * c,
    ;
    assert(u * (w - l) <= (6 * n + 4) * c && u * (l - w) <= (6 * n + 4) * c) by (nonlinear_arith)
        requires
            (u * (w - l)) * c <= ((6 * n + 4) * c) * c,
            (u * (l - w)) * c <= ((6 * n + 4) * c) * c,
            c > 0,
    ;
    assert((6 * n + 4) * c + 4 * c == (6 * n + 8) * c) by (nonlinear_arith);
}

/// Nothing, as a share of a positive number and times any share, is nothing.
proof fn lemma_nothing(whole: F64, left: F64)
    requires
        whole.plain(),
        whole.low() > 0,
        left.plain(),
    ensures
        signed(false, 0).quot(whole) == signed(false, 0),
        signed(false, 0).prod(left) == signed(false, 0),
{
    lemma_double();
    lemma_pow2_pos(1074);
    let zero = signed(false, 0);
    lemma_quot_pattern(zero, whole);
    lemma_prod_pattern(zero, left);
    assert(0nat * one() == 0 && 0nat * whole.mag() == 0 && 0nat * left.mag() == 0)
        by (nonlinear_arith);
    assert(2 * double().magnitude(0) == 0);
    lemma_nearest_exact(double(), Exact::Ratio { p: 0, q: whole.mag() }, 0);
    lemma_nearest_exact(double(), Exact::Ratio { p: 0, q: one() }, 0);
}

/// Where all paths are held, their number is that of all.
proof fn lemma_all_held(held: Seq<bool>)
    requires
        forall|k: int| 0 <= k < held.len() ==> held[k],
    ensures
        count(held) == held.len(),
    decreases held.len(),
{
    if held.len() > 0 {
        assert(held[held.len() - 1]);
        lemma_all_held(held.drop_last());
    }
}

/// Where shares that add up to one are all below the least share or equal to it, the least share
/// of all adds up to no less.
proof fn lemma_below(ws: Seq<F64>, least: F64)
    requires
        least.plain(),
        forall|i: int| 0 <= i < ws.len() ==> (#[trigger] ws[i]).plain() && ws[i].at_most(least),
    ensures
        exact_sum(ws) <= ws.len() * least.mag(),
    decreases ws.len(),
{
    if ws.len() > 0 {
        let front = ws.drop_last();
        assert forall|i: int| 0 <= i < front.len() implies (#[trigger] front[i]).plain()
            && front[i].at_most(least) by {
            assert(ws[i].plain());
        }
        lemma_below(front, least);
        let (n, m) = (ws.len(), least.mag());
        assert(ws[n - 1].plain());
        assert((n - 1) * m + m == n * m) by (nonlinear_arith);
    } else {
        assert(0 * least.mag() == 0) by (nonlinear_arith);
    }
}

/// The least share is enough for all paths, but for a rounding error.
spec fn filling(n: nat, least: F64) -> bool {
    0x20_0000_0000_0000 * (one() - n * least.mag()) <= (6 * n + 8) * one()
}

/// Holding paths at the least share until none falls below it.
proof fn lemma_lifted(ws: Seq<F64>, held: Seq<bool>, least: F64)
    requires
        liftable(ws, held, least),
        count(held) == ws.len() ==> filling(ws.len(), least),
    ensures
        adds_up_within(lifted(ws, held, least), 6 * ws.len() + 8),
        forall|i: int|
            0 <= i < ws.len() ==> unit(#[trigger] lifted(ws, held, least)[i]) && least.at_most(
                lifted(ws, held, least)[i],
            ),
    decreases ws.len() - count(held),
{
    lemma_count(held);
    lemma_lifted_len(ws, held, least);
    let n = ws.len();
    let next = spread(ws, held, least);
    let more = holding(next, held, least);
    lemma_count(more);
    lemma_order(least, least);
    if count(held) == n {
        assert forall|i: int| 0 <= i < n implies #[trigger] next[i] == least by {
            assert(held[i]);
        }
        let ps = Seq::new(n, |i: int| signed(false, 0));
        lemma_zero_one();
        lemma_mixed_sum(ps, next, held, least);
        lemma_zeros(ps);
        lemma_taken(n, n, least);
        assert(2 * one() <= (6 * n + 8) * one()) by (nonlinear_arith)
            requires
                n >= 0,
        ;
        assert(least.value() == least.mag());
    } else {
        lemma_spread(ws, held, least);
        assert forall|i: int| 0 <= i < held.len() && #[trigger] held[i] implies more[i] by {
        }
        lemma_count_more(held, more);
        assert forall|i: int| 0 <= i < n && more[i] == held[i] implies least.at_most(
            #[trigger] next[i],
        ) by {
            assert(unit(next[i]));
            lemma_order(next[i], least);
            lemma_order(least, next[i]);
        }
        if count(more) > count(held) {
            assert forall|i: int| 0 <= i < n && !more[i] implies least.at_most(#[trigger] ws[i]) by {
                assert(!held[i]);
            }
            if count(more) == n {
                assert forall|i: int| 0 <= i < n implies (#[trigger] next[i]).plain()
                    && next[i].at_most(least) by {
                    assert(unit(next[i]));
                    assert(more[i]);
                    assert(held[i] ==> next[i] == least);
                    lemma_order(next[i], least);
                }
                lemma_below(next, least);
            }
            lemma_lifted(ws, more, least);
        } else {
            assert forall|i: int| 0 <= i < n implies unit(#[trigger] next[i]) && least.at_most(
                next[i],
            ) by {
                assert(more[i] == held[i]);
            }
        }
    }
}

proof fn lemma_zeros(ps: Seq<F64>)
    requires
        forall|i: int| 0 <= i < ps.len() ==> (#[trigger] ps[i]).value() == 0,
    ensures
        exact_sum(ps) == 0,
    decreases ps.len(),
{
    if ps.len() > 0 {
        assert(ps[ps.len() - 1].value() == 0);
        let front = ps.drop_last();
        assert forall|i: int| 0 <= i < front.len() implies (#[trigger] front[i]).value() == 0 by {
            assert(ps[i].value() == 0);
        }
        lemma_zeros(front);
    }
}

/// Of shares that add up to one, every path gets the least share where there is enough for all
/// of them, and the shares still add up to one.
pub proof fn lemma_granted(ws: Seq<F64>, least: F64)
    requires
        0 < ws.len() <= 0x4_0000_0000_0000,
        unit(least),
        least.low() > 0,
        grantable(ws.len(), least),
        forall|i: int| 0 <= i < ws.len() ==> unit(#[trigger] ws[i]),
        adds_up_within(ws, 5 * ws.len() + 2),
    ensures
        granted(ws, least).len() == ws.len(),
        adds_up_within(granted(ws, least), 6 * ws.len() + 8),
        forall|i: int|
            0 <= i < ws.len() ==> unit(#[trigger] granted(ws, least)[i]) && least.at_most(
                granted(ws, least)[i],
            ),
{
    let n = ws.len();
    let held = Seq::new(ws.len(), |i: int| ws[i].less(least));
    lemma_granted_len(ws, least);
    lemma_count(held);
    assert((5 * n + 2) * one() <= (6 * n + 8) * one()) by (nonlinear_arith)
        requires
            n >= 0,
    ;
    assert forall|i: int| 0 <= i < n && !held[i] implies least.at_most(#[trigger] ws[i]) by {
        assert(unit(ws[i]));
        lemma_order(ws[i], least);
        lemma_order(least, ws[i]);
    }
    if count(held) > 0 {
        if count(held) == n {
            assert forall|i: int| 0 <= i < n implies (#[trigger] ws[i]).plain() && ws[i].at_most(
                least,
            ) by {
                assert(unit(ws[i]));
                assert(held[i]);
            }
            lemma_below(ws, least);
        }
        lemma_lifted(ws, held, least);
    } else {
        assert forall|i: int| 0 <= i < n implies unit(#[trigger] ws[i]) && least.at_most(ws[i]) by {
            assert(!held[i]);
        }
    }
}

} // verus!
