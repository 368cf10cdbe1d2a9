//! The proportions of weights beside a least share.
use vstd::arithmetic::power2::pow2;
use vstd::prelude::*;

use crate::multipath_scheduler::candidate::law_candidates_are_the_usable_paths;
use crate::multipath_scheduler::laws::lemma_ranked;
use crate::multipath_scheduler::least::{
    count, grantable, granted, holding, left_over, lemma_count, lemma_granted_len, lemma_left_over,
    lifted, spread, unheld,
};
use crate::multipath_scheduler::plan::{evened, plan_for, raised, raws_of, total, usable_of};
use crate::multipath_scheduler::weights::{
    all_plain, balanceable, lemma_evened, lemma_parts_at_most, lemma_raised, lemma_smoothed_fair,
    lemma_total_finite, smoothable, smoothed_of, unit,
};
use crate::multipath_scheduler::{Config, Epoch};
use crate::num::bounds::lemma_order;
use crate::num::close::{
    close, lemma_close_more, lemma_close_proportion, lemma_close_scale, lemma_close_trans,
    lemma_large_one, lemma_prod_close, lemma_quot_close, lemma_very_large_one,
};
use crate::num::double::{lemma_double, lemma_mag_order, of_whole, signed, F64};
use crate::num::exact::{lemma_whole_exact, one};
use crate::num::facts::lemma_zero_one;

verus! {

/// Shares, and a least share of a millionth or so that there is enough of.
pub open spec fn holdable(ws: Seq<F64>, least: F64) -> bool {
    &&& 0 < ws.len() <= 1_000_000
    &&& unit(least)
    &&& one() <= 0x10_0000 * least.mag()
    &&& grantable(ws.len(), least)
    &&& forall|i: int| 0 <= i < ws.len() ==> unit(#[trigger] ws[i])
}

/// The weight of a path that is not held.
proof fn lemma_spread_weight(ws: Seq<F64>, held: Seq<bool>, least: F64, i: int)
    requires
        holdable(ws, least),
        held.len() == ws.len(),
        forall|k: int| 0 <= k < ws.len() && !#[trigger] held[k] ==> least.at_most(ws[k]),
        0 <= i < ws.len(),
        !held[i],
    ensures
        ({
            let whole = total(unheld(ws, held));
            let left = left_over(held, least);
            let w = spread(ws, held, least)[i];
            &&& whole.plain() && whole.mag() > 0
            &&& left.plain() && left.mag() > 0
            &&& w.plain()
            &&& close(w.value() * whole.value(), ws[i].value() * left.value(), 3)
        }),
{
    lemma_double();
    lemma_large_one();
    lemma_very_large_one();
    lemma_zero_one();
    lemma_whole_exact(1);
    let c = one() as int;
    let free = unheld(ws, held);
    assert forall|k: int| 0 <= k < free.len() implies (#[trigger] free[k]).plain() && free[k].mag()
        <= 2 * one() by {
        assert(unit(ws[k]));
        lemma_order(ws[k], of_whole(1));
        lemma_mag_order(of_whole(1), ws[k]);
    }
    lemma_total_finite(free);
    lemma_parts_at_most(free, i);
    let whole = total(free);
    let x = ws[i];
    assert(free[i] == x);
    assert(unit(x));
    lemma_order(x, of_whole(1));
    lemma_mag_order(of_whole(1), x);
    assert(least.at_most(x));
    lemma_order(least, x);
    lemma_mag_order(x, least);
    lemma_mag_order(whole, x);
    lemma_mag_order(x, whole);
    let (m, t) = (x.mag() as int, whole.mag() as int);
    assert(t <= 4_000_000 * c) by (nonlinear_arith)
        requires
            t <= 4 * free.len() * c,
            free.len() <= 1_000_000,
            c >= 0,
    ;
    lemma_mag_order(whole, signed(false, 0));
    let big = pow2(2000) as int;
    assert(m * c >= 0x10_0000_0000_0000 * t && m * c <= big * t) by (nonlinear_arith)
        requires
            c <= 0x10_0000 * m,
            m <= t,
            0 < t <= 4_000_000 * c,
            big >= c,
            c >= 0x1_0000_0000_0000_0000_0000_0000_0000_0000_0000_0000_0000_0000_0000_0000_0000_0000,
    {
        assert(0x10_0000 * (m * c) >= c * c);
        assert(c * c >= (0x10_0000 * 0x10_0000_0000_0000) * t);
        assert(m * c <= t * c);
    }
    lemma_quot_close(x, whole);
    let p = x.quot(whole);
    let s = p.mag() as int;
    // what is left
    lemma_count(held);
    assert(count(held) < ws.len()) by {
        if count(held) == held.len() {
            assert(held[i]);
        }
    }
    let n = ws.len() as int;
    let k = count(held) as int;
    lemma_left_over(held, ws.len(), least);
    let left = left_over(held, least);
    let l = left.mag() as int;
    let y = least.mag() as int;
    lemma_enough(ws.len(), least);
    assert(2 * (0x10_0000 * l) >= c) by (nonlinear_arith)
        requires
            0x20_0000_0000_0000 * (c - l - k * y) <= 4 * c,
            0x20_0000_0000_0000 * (n * y - c) <= 4 * c,
            k + 1 <= n,
            c <= 0x10_0000 * y,
            c > 0,
            y > 0,
    {
        assert(n * y >= (k + 1) * y);
        assert((k + 1) * y == k * y + y);
        assert(0x20_0000_0000_0000 * (y - l) <= 8 * c);
    }
    lemma_order(left, of_whole(1));
    lemma_mag_order(of_whole(1), left);
    let q = s * t;
    assert(2 * q >= m * c);
    assert(s * 0x100_0000_0000 * 0x100 >= c) by (nonlinear_arith)
        requires
            2 * (s * t) >= m * c,
            c <= 0x10_0000 * m,
            0 < t <= 4_000_000 * c,
            c > 0,
            s >= 0,
    {
        assert(0x20_0000 * (s * t) >= c * c);
        assert(s * t <= s * (4_000_000 * c));
        assert((0x20_0000 * 4_000_000 * s) * c >= c * c);
        assert(0x20_0000 * 4_000_000 * s >= c);
    }
    assert(s <= 4 * c) by (nonlinear_arith)
        requires
            s * t <= 2 * (m * c),
            m <= t,
            t > 0,
            c > 0,
            s >= 0,
    {
        assert(m * c <= t * c);
        assert(s * t <= (2 * c) * t);
    }
    assert(s * l >= 0x10_0000_0000_0000 * c && s * l <= big * c) by (nonlinear_arith)
        requires
            s * 0x100_0000_0000 * 0x100 >= c,
            s <= 4 * c,
            2 * (0x10_0000 * l) >= c,
            0 <= l <= c,
            big >= 4 * c,
            c >= 0x1_0000_0000_0000_0000_0000_0000_0000_0000_0000_0000_0000_0000_0000_0000_0000_0000,
    {
        assert((s * 0x100_0000_0000 * 0x100) * (0x20_0000 * l) >= c * c);
        assert((0x100_0000_0000 * 0x100 * 0x20_0000) * (s * l) >= c * c);
        assert(s * l <= (4 * c) * l);
        assert((4 * c) * l <= (4 * c) * c);
        assert((4 * c) * c <= big * c);
    }
    lemma_prod_close(p, left);
    let w = p.prod(left);
    let r = w.mag() as int;
    assert(spread(ws, held, least)[i] == w);
    // r c is close to s l, and s t to m c
    lemma_close_scale(r * c, s * l, 1, t);
    lemma_close_scale(s * t, m * c, 1, l);
    assert((r * c) * t == (r * t) * c && (s * l) * t == (s * t) * l && (m * c) * l == (m * l) * c)
        by (nonlinear_arith);
    assert((s * t) * l >= 0 && (m * l) * c >= 0) by (nonlinear_arith)
        requires
            s >= 0,
            t >= 0,
            l >= 0,
            m >= 0,
            c >= 0,
    ;
    lemma_close_trans((r * t) * c, (s * t) * l, 1, (m * l) * c, 1);
    lemma_close_scale(r * t, m * l, 3, c);
}

/// The least shares of all paths add up to one at most, but for rounding.
proof fn lemma_enough(n: nat, least: F64)
    requires
        0 < n <= 1_000_000,
        unit(least),
        one() <= 0x10_0000 * least.mag(),
        grantable(n, least),
    ensures
        0x20_0000_0000_0000 * (n * least.mag() - one()) <= 4 * one(),
{
    lemma_double();
    lemma_large_one();
    lemma_very_large_one();
    lemma_whole_exact(n);
    lemma_whole_exact(1);
    let c = one() as int;
    let y = least.mag() as int;
    let x = of_whole(n).prod(least);
    lemma_order(least, of_whole(1));
    lemma_mag_order(of_whole(1), least);
    let p = (n * c) * y;
    let big = pow2(2000) as int;
    assert(p >= 0x10_0000_0000_0000 * c && p <= big * c) by (nonlinear_arith)
        requires
            p == (n * c) * y,
            1 <= n <= 1_000_000,
            c <= 0x10_0000 * y,
            0 < y <= c,
            c >= 0x1_0000_0000_0000_0000_0000_0000_0000_0000_0000_0000_0000_0000_0000_0000_0000_0000,
            big >= 1_000_000 * c,
    {
        assert((n * c) * y >= c * y);
        assert(c * y >= 0x10_0000_0000_0000 * c);
        assert((n * c) * y <= (1_000_000 * c) * y);
        assert((1_000_000 * c) * y <= (1_000_000 * c) * c);
    }
    lemma_prod_close(of_whole(n), least);
    lemma_order(x, of_whole(1));
    lemma_mag_order(of_whole(1), x);
    let r = x.mag() as int;
    assert(p == (n * y) * c) by (nonlinear_arith)
        requires
            p == (n * c) * y,
    ;
    lemma_close_scale(r, n * y, 1, c);
    assert(n * y <= 2 * c);
}

/// Holding paths until none falls below the least share spreads the rest over those that are not
/// held.
proof fn lemma_lifted_is_spread(ws: Seq<F64>, held: Seq<bool>, least: F64) -> (all: Seq<bool>)
    requires
        held.len() == ws.len(),
    ensures
        all.len() == ws.len(),
        forall|i: int| 0 <= i < ws.len() && held[i] ==> #[trigger] all[i],
        lifted(ws, held, least) == spread(ws, all, least),
    decreases ws.len() - count(held),
{
    let more = holding(spread(ws, held, least), held, least);
    if count(more) <= count(held) {
        held
    } else {
        lemma_count(more);
        let all = lemma_lifted_is_spread(ws, more, least);
        assert forall|i: int| 0 <= i < ws.len() && held[i] implies #[trigger] all[i] by {
            assert(more[i]);
        }
        all
    }
}

/// Where the least share is granted, some paths are held at it, among them all whose own share is
/// below it; the others keep the proportions of their shares.
pub proof fn law_granting_keeps_the_proportions(ws: Seq<F64>, least: F64) -> (held: Seq<bool>)
    requires
        holdable(ws, least),
    ensures
        held.len() == ws.len(),
        granted(ws, least).len() == ws.len(),
        forall|i: int| 0 <= i < ws.len() && (#[trigger] ws[i]).less(least) ==> held[i],
        forall|i: int| 0 <= i < ws.len() && #[trigger] held[i] ==> granted(ws, least)[i] == least,
        forall|i: int| 0 <= i < ws.len() && !#[trigger] held[i] ==> granted(ws, least)[i].plain(),
        forall|i: int, j: int|
            0 <= i < ws.len() && 0 <= j < ws.len() && !#[trigger] held[i] && !#[trigger] held[j]
                ==> close(
                granted(ws, least)[i].value() * ws[j].value(),
                ws[i].value() * granted(ws, least)[j].value(),
                7,
            ),
{
    lemma_large_one();
    lemma_granted_len(ws, least);
    let first = Seq::new(ws.len(), |i: int| ws[i].less(least));
    lemma_count(first);
    if count(first) == 0 {
        assert forall|i: int, j: int|
            0 <= i < ws.len() && 0 <= j < ws.len() && !#[trigger] first[i]
                && !#[trigger] first[j] implies close(
            granted(ws, least)[i].value() * ws[j].value(),
            ws[i].value() * granted(ws, least)[j].value(),
            7,
        ) by {
            assert(unit(ws[i]) && unit(ws[j]));
            let (x, y) = (ws[i].value(), ws[j].value());
            assert(x * y >= 0) by (nonlinear_arith)
                requires
                    x >= 0,
                    y >= 0,
            ;
        }
        assert forall|i: int| 0 <= i < ws.len() implies (#[trigger] ws[i]).plain()
            && !ws[i].less(least) by {
            assert(unit(ws[i]));
            assert(!first[i]);
        }
        first
    } else {
        let held = lemma_lifted_is_spread(ws, first, least);
        assert forall|i: int| 0 <= i < ws.len() && (#[trigger] ws[i]).less(
            least,
        ) implies held[i] by {
            assert(first[i]);
        }
        assert forall|k: int| 0 <= k < ws.len() && !#[trigger] held[k] implies least.at_most(
            ws[k],
        ) by {
            assert(unit(ws[k]));
            assert(!ws[k].less(least));
            lemma_order(ws[k], least);
            lemma_order(least, ws[k]);
        }
        assert forall|i: int| 0 <= i < ws.len() && !#[trigger] held[i] implies granted(
            ws,
            least,
        )[i].plain() by {
            lemma_spread_weight(ws, held, least, i);
        }
        assert forall|i: int, j: int|
            0 <= i < ws.len() && 0 <= j < ws.len() && !#[trigger] held[i]
                && !#[trigger] held[j] implies close(
            granted(ws, least)[i].value() * ws[j].value(),
            ws[i].value() * granted(ws, least)[j].value(),
            7,
        ) by {
            lemma_spread_weight(ws, held, least, i);
            lemma_spread_weight(ws, held, least, j);
            assert(unit(ws[i]) && unit(ws[j]));
            let (v, w) = (granted(ws, least)[i].value(), granted(ws, least)[j].value());
            let (a, b) = (ws[i].value(), ws[j].value());
            let t = total(unheld(ws, held)).value();
            let l = left_over(held, least).value();
            assert(a * l >= 0 && b * l >= 0) by (nonlinear_arith)
                requires
                    a >= 0,
                    b >= 0,
                    l >= 0,
            ;
            lemma_close_proportion(v, a * l, 3, w, b * l, 3, t);
            assert(v * (b * l) == (v * b) * l && (a * l) * w == (a * w) * l) by (nonlinear_arith);
            lemma_close_scale(v * b, a * w, 7, l);
        }
        held
    }
}

/// With a least share that there is enough of, some paths of a plan are held at it; the weights
/// of the others are in the proportion of their smoothed shares, each raised to the least share.
pub proof fn law_weights_beside_the_least_share(cfg: Config, inp: Epoch, gates: Seq<F64>) -> (held:
    Seq<bool>)
    requires
        inp.paths.len() <= 1_000_000,
        inp.paths.len() <= usize::MAX,
        usable_of(cfg, inp).len() >= 2,
        smoothable(cfg, inp.prev_weights),
        one() <= 0x10_0000 * cfg.min_share.mag(),
        !cfg.min_share.negative(),
        !total(raws_of(cfg, inp, gates)).at_most(signed(false, 0)),
        balanceable(cfg, smoothed_of(cfg, inp, gates)),
        grantable(usable_of(cfg, inp).len(), cfg.min_share),
    ensures
        plan_for(cfg, inp, gates) matches Some(plan) && {
            let up = raised(smoothed_of(cfg, inp, gates), cfg.min_share);
            &&& held.len() == plan.weights.len()
            &&& plan.weights.len() == usable_of(cfg, inp).len()
            &&& forall|i: int|
                0 <= i < held.len() && #[trigger] held[i] ==> plan.weights[i].weight
                    == cfg.min_share
            &&& forall|i: int, j: int|
                0 <= i < held.len() && 0 <= j < held.len() && !#[trigger] held[i]
                    && !#[trigger] held[j] ==> close(
                    plan.weights[i].weight.value() * up[j].value(),
                    up[i].value() * plan.weights[j].weight.value(),
                    20,
                )
        },
{
    lemma_double();
    lemma_large_one();
    lemma_very_large_one();
    lemma_zero_one();
    lemma_whole_exact(1);
    law_candidates_are_the_usable_paths(cfg, inp.now_ms, inp.packet_len_hint, inp.paths);
    lemma_ranked(cfg, inp);
    let least = cfg.min_share;
    lemma_mag_order(least, signed(false, 0));
    assert(signed(false, 0).less(least));
    let xs = smoothed_of(cfg, inp, gates);
    let up = raised(xs, least);
    let ws = evened(xs, least);
    lemma_evened(cfg, inp, gates);
    lemma_smoothed_fair(cfg, inp, gates);
    lemma_raised(xs, least);
    lemma_total_finite(up);
    let held = law_granting_keeps_the_proportions(ws, least);
    let plan = plan_for(cfg, inp, gates).unwrap();
    let g = granted(ws, least);
    assert forall|i: int| 0 <= i < held.len() && #[trigger] held[i] implies plan.weights[i].weight
        == least by {
        assert(g[i] == least);
    }
    assert forall|i: int, j: int|
        0 <= i < held.len() && 0 <= j < held.len() && !#[trigger] held[i]
            && !#[trigger] held[j] implies close(
        plan.weights[i].weight.value() * up[j].value(),
        up[i].value() * plan.weights[j].weight.value(),
        20,
    ) by {
        lemma_even_share(up, least, i);
        lemma_even_share(up, least, j);
        assert(unit(ws[i]) && unit(ws[j]));
        assert(!ws[i].less(least) && !ws[j].less(least));
        lemma_order(ws[i], least);
        lemma_order(ws[j], least);
        lemma_mag_order(ws[i], least);
        lemma_mag_order(ws[j], least);
        assert(plan.weights[i].weight == g[i] && plan.weights[j].weight == g[j]);
        lemma_carried(
            g[i].value(),
            g[j].value(),
            ws[i].value(),
            ws[j].value(),
            up[i].value(),
            up[j].value(),
            total(up).value(),
        );
    }
    held
}

/// With a least share that there is not enough of, the weights are in the proportion of the
/// smoothed shares, each raised to the least share.
pub proof fn law_weights_beyond_the_least_share(
    cfg: Config,
    inp: Epoch,
    gates: Seq<F64>,
    i: int,
    j: int,
)
    requires
        inp.paths.len() <= 1_000_000,
        inp.paths.len() <= usize::MAX,
        usable_of(cfg, inp).len() >= 2,
        smoothable(cfg, inp.prev_weights),
        one() <= 0x10_0000 * cfg.min_share.mag(),
        !cfg.min_share.negative(),
        !total(raws_of(cfg, inp, gates)).at_most(signed(false, 0)),
        balanceable(cfg, smoothed_of(cfg, inp, gates)),
        !grantable(usable_of(cfg, inp).len(), cfg.min_share),
        0 <= i < usable_of(cfg, inp).len(),
        0 <= j < usable_of(cfg, inp).len(),
    ensures
        plan_for(cfg, inp, gates) matches Some(plan) && {
            let up = raised(smoothed_of(cfg, inp, gates), cfg.min_share);
            &&& plan.weights.len() == usable_of(cfg, inp).len()
            &&& close(
                plan.weights[i].weight.value() * up[j].value(),
                up[i].value() * plan.weights[j].weight.value(),
                3,
            )
        },
{
    lemma_double();
    lemma_large_one();
    lemma_zero_one();
    law_candidates_are_the_usable_paths(cfg, inp.now_ms, inp.packet_len_hint, inp.paths);
    lemma_ranked(cfg, inp);
    let least = cfg.min_share;
    lemma_mag_order(least, signed(false, 0));
    assert(signed(false, 0).less(least));
    let xs = smoothed_of(cfg, inp, gates);
    let up = raised(xs, least);
    let ws = evened(xs, least);
    lemma_evened(cfg, inp, gates);
    lemma_smoothed_fair(cfg, inp, gates);
    lemma_raised(xs, least);
    lemma_total_finite(up);
    lemma_raised_at(up, least, i);
    lemma_raised_at(up, least, j);
    lemma_even_share(up, least, i);
    lemma_even_share(up, least, j);
    let plan = plan_for(cfg, inp, gates).unwrap();
    assert(plan.weights[i].weight == ws[i] && plan.weights[j].weight == ws[j]);
    let c = one() as int;
    let (v, w) = (ws[i].value(), ws[j].value());
    let (a, b) = (up[i].value(), up[j].value());
    assert(a * c >= 0 && b * c >= 0) by (nonlinear_arith)
        requires
            a >= 0,
            b >= 0,
            c >= 0,
    ;
    lemma_close_proportion(v, a * c, 1, w, b * c, 1, total(up).value());
    assert(v * (b * c) == (v * b) * c && (a * c) * w == (a * w) * c) by (nonlinear_arith);
    lemma_close_scale(v * b, a * w, 3, c);
}

/// A raised number is not below the least share.
proof fn lemma_raised_at(up: Seq<F64>, least: F64, i: int)
    requires
        0 <= i < up.len(),
        least.low() <= up[i].low(),
    ensures
        least.mag() <= up[i].mag(),
{
    lemma_mag_order(up[i], least);
}

/// A raised share over the sum of all of them.
proof fn lemma_even_share(up: Seq<F64>, least: F64, i: int)
    requires
        0 <= i < up.len() <= 1_000_000,
        all_plain(up),
        total(up).plain(),
        total(up).mag() <= 4 * up.len() * one(),
        up[i].mag() >= least.mag(),
        one() <= 0x10_0000 * least.mag(),
    ensures
        total(up).mag() > 0,
        up[i].mag() > 0,
        close(up[i].quot(total(up)).value() * total(up).value(), up[i].value() * one(), 1),
        up[i].quot(total(up)).plain(),
{
    lemma_double();
    lemma_large_one();
    lemma_very_large_one();
    let c = one() as int;
    let whole = total(up);
    lemma_parts_at_most(up, i);
    lemma_mag_order(whole, up[i]);
    assert(up[i].plain());
    let (m, t) = (up[i].mag() as int, whole.mag() as int);
    assert(t <= 4_000_000 * c) by (nonlinear_arith)
        requires
            t <= 4 * up.len() * c,
            up.len() <= 1_000_000,
            c >= 0,
    ;
    let big = pow2(2000) as int;
    assert(m * c >= 0x10_0000_0000_0000 * t && m * c <= big * t) by (nonlinear_arith)
        requires
            c <= 0x10_0000 * m,
            m <= t,
            0 < t <= 4_000_000 * c,
            big >= c,
            c >= 0x1_0000_0000_0000_0000_0000_0000_0000_0000_0000_0000_0000_0000_0000_0000_0000_0000,
    {
        assert(0x10_0000 * (m * c) >= c * c);
        assert(c * c >= (0x10_0000 * 0x10_0000_0000_0000) * t);
        assert(m * c <= t * c);
    }
    lemma_quot_close(up[i], whole);
}

/// Proportions carry over from one pair of numbers to the next.
proof fn lemma_carried(v: int, w: int, a: int, b: int, p: int, q: int, t: int)
    requires
        close(v * b, a * w, 7),
        close(a * t, p * one(), 1),
        close(b * t, q * one(), 1),
        v >= 0,
        w >= 0,
        a > 0,
        b > 0,
        p > 0,
        q > 0,
        t > 0,
    ensures
        close(v * q, p * w, 20),
{
    lemma_large_one();
    let c = one() as int;
    assert(p * c >= 0 && q * c >= 0) by (nonlinear_arith)
        requires
            p > 0,
            q > 0,
            c > 0,
    ;
    lemma_close_proportion(a, p * c, 1, b, q * c, 1, t);
    assert(a * (q * c) == (a * q) * c && (p * c) * b == (p * b) * c) by (nonlinear_arith);
    lemma_close_scale(a * q, p * b, 3, c);
    assert(v * q >= 0 && p * w >= 0 && a * w >= 0 && p * b > 0) by (nonlinear_arith)
        requires
            v >= 0,
            w >= 0,
            a > 0,
            b > 0,
            p > 0,
            q > 0,
    ;
    if w == 0 {
        assert(a * w == 0 && p * w == 0) by (nonlinear_arith)
            requires
                w == 0,
        ;
        assert(v == 0) by (nonlinear_arith)
            requires
                v * b <= 0,
                b > 0,
                v >= 0,
        ;
        assert(v * q == 0) by (nonlinear_arith)
            requires
                v == 0,
        ;
    } else {
        lemma_close_scale(v * b, a * w, 7, q);
        lemma_close_scale(a * q, p * b, 3, w);
        assert((v * b) * q == (v * q) * b && (a * w) * q == (a * q) * w && (p * b) * w == (p * w)
            * b) by (nonlinear_arith);
        assert((a * q) * w >= 0 && (p * w) * b >= 0) by (nonlinear_arith)
            requires
                a > 0,
                q > 0,
                w >= 0,
                p > 0,
                b > 0,
        ;
        lemma_close_trans((v * q) * b, (a * q) * w, 7, (p * w) * b, 3);
        lemma_close_scale(v * q, p * w, 11, b);
        lemma_close_more(v * q, p * w, 11, 20);
    }
}

} // verus!
