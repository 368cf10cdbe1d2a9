//! What the factors of a raw weight come to, but for rounding.
use vstd::arithmetic::power2::pow2;
use vstd::prelude::*;

use crate::multipath_scheduler::candidate::Candidate;
use crate::multipath_scheduler::delays::{common, moderate};
use crate::multipath_scheduler::plan::{
    find_path, gate_exponent, headroom_boost, headroom_ratio, late, loss_factor, order_factor,
    queue_factor, raw_weight, reorder_budget,
};
use crate::multipath_scheduler::{
    aggressive_config, conservative_config, default_config, Config, PathId, PathSnapshot,
};
use crate::num::bounds::{
    lemma_error, lemma_order, lemma_prod_pattern, lemma_sum_above, lemma_sum_pattern,
    lemma_units_at_least, lemma_units_at_most,
};
use crate::num::close::{
    close, kept_within, least, lemma_close_order, lemma_close_scale, lemma_close_sum,
    lemma_close_swap, lemma_close_trans, lemma_diff_below, lemma_diff_close, lemma_finite,
    lemma_fraction_close, lemma_gap, lemma_large_one, lemma_prod_close, lemma_quot_close,
    lemma_sum_close, lemma_very_large_one, lemma_zero_prod, most, parts,
};
use crate::num::double::{
    fraction, lemma_double, lemma_mag_order, lemma_whole_monotone, of_whole, signed, F64,
};
use crate::num::exact::{lemma_whole_exact, one};
use crate::num::facts::{lemma_quot_at_most_one, lemma_zero_one};
use crate::num::format::double;

verus! {

/// A product, with half a unit of error where it is very small.
pub proof fn lemma_prod_near(a: F64, b: F64)
    requires
        a.plain(),
        b.plain(),
        a.mag() * b.mag() <= pow2(2000) * one(),
    ensures
        a.prod(b).plain(),
        ({
            let (r, p) = ((a.prod(b).mag() * one()) as int, (a.mag() * b.mag()) as int);
            &&& parts() * (r - p) <= p + parts() * one()
            &&& parts() * (p - r) <= p + parts() * one()
        }),
{
    lemma_double();
    lemma_large_one();
    lemma_prod_pattern(a, b);
    let p = a.mag() * b.mag();
    lemma_finite(p, one());
    lemma_error(double(), p, one());
    let (r, u) = ((a.prod(b).mag() * one()) as int, parts());
    assert(u * (2 * (r - p)) == 2 * (u * (r - p)) && u * (2 * (p - r)) == 2 * (u * (p - r)))
        by (nonlinear_arith);
}

/// A path keeps what its losses, times the strength of the penalty, leave of its weight, and a
/// fifth at least.
pub proof fn law_losses_take_their_share(cfg: Config, loss: F64)
    requires
        cfg.loss_gamma.plain(),
        cfg.loss_gamma.mag() <= 0x1_0000_0000_0000_0000 * one(),
        loss.plain(),
        loss.mag() <= one(),
    ensures
        ({
            let c = one() as int;
            let kept = (5 * c) * loss_factor(cfg, loss).value();
            let left = kept_within(
                (5 * c) * c - 5 * (cfg.loss_gamma.value() * loss.value()),
                c * c,
                (5 * c) * c,
            );
            &&& loss_factor(cfg, loss).plain()
            &&& loss_factor(cfg, loss).mag() <= one()
            &&& 6 * loss_factor(cfg, loss).mag() >= one()
            &&& parts() * (kept - left) <= 64 * (c * c)
            &&& parts() * (left - kept) <= 64 * (c * c)
        }),
{
    lemma_double();
    lemma_large_one();
    lemma_zero_one();
    lemma_whole_exact(1);
    lemma_fraction_close(1, 5);
    let u = parts();
    let c = one() as int;
    let (f, w1) = (fraction(1, 5), of_whole(1));
    let g = cfg.loss_gamma;
    let p = (g.mag() * loss.mag()) as int;
    let big = pow2(2000) as int;
    assert(0 <= p <= (0x1_0000_0000_0000_0000 * c) * c) by (nonlinear_arith)
        requires
            p == g.mag() * loss.mag(),
            g.mag() <= 0x1_0000_0000_0000_0000 * c,
            loss.mag() <= c,
    ;
    assert((0x1_0000_0000_0000_0000 * c) * c <= big * c) by (nonlinear_arith)
        requires
            0x1_0000_0000_0000_0000 * c <= big,
            c >= 0,
    ;
    lemma_prod_near(g, loss);
    let m = g.prod(loss);
    let y = m.mag() as int;
    let d = w1.diff(m);
    let r = loss_factor(cfg, loss);
    lemma_order(f, w1);
    lemma_mag_order(f, w1);
    let (fv, q) = (f.mag() as int, c * c);
    assert(close(5 * fv, c, 1));
    assert(u * ((5 * c) * fv - q) <= q && u * (q - (5 * c) * fv) <= q) by (nonlinear_arith)
        requires
            u * (5 * fv - c) <= c,
            u * (c - 5 * fv) <= c,
            q == c * c,
            c > 0,
    {
        assert((u * (5 * fv - c)) * c <= c * c);
        assert((u * (c - 5 * fv)) * c <= c * c);
    }
    assert(q >= c && u * c <= q) by (nonlinear_arith)
        requires
            q == c * c,
            c >= u,
            u >= 1,
    ;
    if y > c {
        lemma_diff_below(w1, m);
        assert(r == f);
        assert(y * c >= q) by (nonlinear_arith)
            requires
                y >= c,
                q == c * c,
                c > 0,
        ;
        assert((5 * c) * c == 5 * q) by (nonlinear_arith)
            requires
                q == c * c,
        ;
    } else {
        lemma_diff_close(w1, m);
        let x = d.mag() as int;
        lemma_mag_order(d, w1);
        lemma_order(d, f);
        lemma_order(w1, d);
        lemma_units_at_most_one(m);
        assert(r.value() == most(x, fv));
        assert((5 * c) * r.value() == most((5 * c) * x, (5 * c) * fv)) by (nonlinear_arith)
            requires
                r.value() == most(x, fv),
                c > 0,
        ;
        assert((5 * c) * c == 5 * q && y * c <= q) by (nonlinear_arith)
            requires
                q == c * c,
                y <= c,
                c > 0,
        ;
        assert(u * ((5 * c) * x - (5 * q - 5 * (y * c))) <= 5 * q && u * ((5 * q - 5 * (y * c)) - (5
            * c) * x) <= 5 * q) by (nonlinear_arith)
            requires
                u * (x - (c - y)) <= c - y,
                u * ((c - y) - x) <= c - y,
                q == c * c,
                0 <= y <= c,
                c > 0,
        {
            assert((u * (x - (c - y))) * (5 * c) <= (c - y) * (5 * c));
            assert((u * ((c - y) - x)) * (5 * c) <= (c - y) * (5 * c));
            assert((c - y) * (5 * c) <= c * (5 * c));
        }
    }
}

/// What a number up to one leaves of one is not above one.
proof fn lemma_units_at_most_one(m: F64)
    requires
        m.plain(),
        m.mag() <= one(),
    ensures
        of_whole(1).diff(m).mag() <= one(),
{
    lemma_whole_exact(1);
    lemma_diff_close(of_whole(1), m);
    lemma_units_at_most((one() - m.mag()) as nat, of_whole(1).low());
    lemma_mag_order(of_whole(1), of_whole(1).diff(m));
}

/// Up to the target, and where the penalty is off, queueing takes nothing.
pub proof fn law_queueing_up_to_the_target_costs_nothing(cfg: Config, queue_delay_ms: F64)
    requires
        !cfg.enable_qaware || (queue_delay_ms.plain() && queue_delay_ms.mag()
            <= cfg.target_qdelay_ms * one()),
    ensures
        queue_factor(cfg, queue_delay_ms).value() == one(),
{
    lemma_whole_exact(cfg.target_qdelay_ms as nat);
    lemma_whole_exact(1);
    if queue_delay_ms.plain() {
        lemma_order(queue_delay_ms, of_whole(cfg.target_qdelay_ms as nat));
    }
}

/// Beyond the target, a path keeps one part of its weight in one and the penalty, which is the
/// strength times the excess over the target, in targets.
pub proof fn law_queueing_beyond_the_target_costs_its_excess(cfg: Config, queue_delay_ms: F64)
    requires
        cfg.enable_qaware,
        cfg.target_qdelay_ms > 0,
        moderate(cfg.qaware_beta),
        queue_delay_ms.plain(),
        queue_delay_ms.mag() > cfg.target_qdelay_ms * one(),
        queue_delay_ms.mag() <= 0x1_0000_0000_0000_0000_0000_0000_0000_0000 * one(),
    ensures
        ({
            let c = one() as int;
            let target = cfg.target_qdelay_ms * c;
            let excess = queue_delay_ms.value() - target;
            let kept = queue_factor(cfg, queue_delay_ms);
            &&& kept.plain()
            &&& kept.mag() <= one()
            &&& close(
                kept.value() * (target * c + cfg.qaware_beta.value() * excess),
                (target * c) * c,
                10,
            )
        }),
{
    lemma_double();
    lemma_large_one();
    lemma_zero_one();
    lemma_whole_exact(1);
    lemma_whole_exact(cfg.target_qdelay_ms as nat);
    lemma_whole_monotone(1, cfg.target_qdelay_ms as nat);
    let c = one() as int;
    let t = of_whole(cfg.target_qdelay_ms as nat);
    let tv = cfg.target_qdelay_ms * c;
    let q = queue_delay_ms;
    lemma_order(q, t);
    assert(tv >= c && tv <= 0x1_0000_0000 * c) by (nonlinear_arith)
        requires
            tv == cfg.target_qdelay_ms * c,
            1 <= cfg.target_qdelay_ms < 0x1_0000_0000,
            c >= 0,
    ;
    lemma_mag_order(t, of_whole(1));
    lemma_mag_order(q, t);
    let e = q.diff(t);
    lemma_diff_close(q, t);
    lemma_gap(t, q);
    let x = q.mag() - tv;
    let ev = e.mag() as int;
    assert(2 * ev >= x);
    assert(ev * c >= 0x10_0000_0000_0000 * tv) by (nonlinear_arith)
        requires
            2 * ev >= x,
            0x20_0000_0000_0000 * x >= tv,
            x > 0,
            tv > 0,
            c >= 0x1_0000_0000_0000_0000_0000_0000_0000_0000,
    ;
    lemma_quot_close(e, t);
    let raw = e.quot(t);
    lemma_mag_order(raw, signed(false, 0));
    lemma_order(raw, signed(false, 0));
    assert(raw.larger(signed(false, 0)) == raw);
    let r = raw.mag() as int;
    lemma_close_scale(ev, x, 1, c);
    assert(ev * c >= 0 && x * c > 0) by (nonlinear_arith)
        requires
            ev >= 0,
            x > 0,
            c > 0,
    ;
    lemma_close_trans(r * tv, ev * c, 1, x * c, 1);
    // the size of the excess in targets
    let (v, w) = (r * tv, x * c);
    assert(2 * v >= w && v <= 2 * w);
    assert(0x80_0000_0000_0000 * r >= c) by (nonlinear_arith)
        requires
            2 * v >= w,
            v == r * tv,
            w == x * c,
            0x20_0000_0000_0000 * x >= tv,
            tv > 0,
            c > 0,
            r >= 0,
    {
        assert(0x40_0000_0000_0000 * (r * tv) >= 0x20_0000_0000_0000 * (x * c));
        assert((0x20_0000_0000_0000 * x) * c >= tv * c);
        assert((0x40_0000_0000_0000 * r) * tv >= c * tv);
    }
    assert(r <= 0x2_0000_0000_0000_0000_0000_0000_0000_0000 * c) by (nonlinear_arith)
        requires
            v <= 2 * w,
            v == r * tv,
            w == x * c,
            x <= 0x1_0000_0000_0000_0000_0000_0000_0000_0000 * c,
            tv >= c,
            c > 0,
            r >= 0,
    {
        assert(r * tv >= r * c);
        assert(x * c <= (0x1_0000_0000_0000_0000_0000_0000_0000_0000 * c) * c);
    }
    lemma_damped(cfg.qaware_beta, raw, tv, x);
}

/// One over one and a strength times a number of targets.
proof fn lemma_damped(beta: F64, raw: F64, target: int, excess: int)
    requires
        moderate(beta),
        raw.plain(),
        0x80_0000_0000_0000 * raw.mag() >= one(),
        raw.mag() <= 0x2_0000_0000_0000_0000_0000_0000_0000_0000 * one(),
        close(raw.value() * target, excess * one(), 3),
        target > 0,
        excess > 0,
    ensures
        ({
            let c = one() as int;
            let kept = of_whole(1).quot(of_whole(1).sum(beta.prod(raw)));
            &&& kept.plain()
            &&& kept.mag() <= one()
            &&& close(
                kept.value() * (target * c + beta.value() * excess),
                (target * c) * c,
                10,
            )
        }),
{
    lemma_double();
    lemma_large_one();
    lemma_very_large_one();
    lemma_zero_one();
    lemma_whole_exact(1);
    let c = one() as int;
    let (b, r) = (beta.mag() as int, raw.mag() as int);
    let m = beta.prod(raw);
    let big = pow2(2000) as int;
    // the penalty
    if b == 0 {
        lemma_zero_prod(raw, beta);
        assert(beta.mag() * raw.mag() == raw.mag() * beta.mag()) by (nonlinear_arith);
        lemma_prod_pattern(beta, raw);
        lemma_prod_pattern(raw, beta);
        assert(m.mag() == 0);
        assert(0 * target == 0 && 0 * excess == 0) by (nonlinear_arith);
        assert(close(m.value() * target, b * excess, 5));
    } else {
        assert(b * r >= 0x10_0000_0000_0000 * c) by (nonlinear_arith)
            requires
                b >= 0x1000_0000_0000_0000_0000_0000_0000_0000,
                0x80_0000_0000_0000 * r >= c,
                c > 0,
        ;
        let k = 0x4_0000_0000_0000_0000_0000_0000_0000_0000_0000_0000_0000_0000 * c;
        assert(b * r <= k * c) by (nonlinear_arith)
            requires
                b <= 0x1_0000_0000_0000_0000 * c,
                0 <= r <= 0x2_0000_0000_0000_0000_0000_0000_0000_0000 * c,
                k == 0x4_0000_0000_0000_0000_0000_0000_0000_0000_0000_0000_0000_0000 * c,
                b >= 0,
        {
            assert(b * r <= (0x1_0000_0000_0000_0000 * c) * r);
            assert((0x1_0000_0000_0000_0000 * c) * r <= (0x1_0000_0000_0000_0000 * c) * (
            0x2_0000_0000_0000_0000_0000_0000_0000_0000 * c));
        }
        assert(k * c <= big * c) by (nonlinear_arith)
            requires
                k <= big,
                c >= 0,
        ;
        lemma_prod_close(beta, raw);
        let y = m.mag() as int;
        lemma_close_scale(y * c, b * r, 1, target);
        lemma_close_scale(r * target, excess * c, 3, b);
        assert((y * c) * target == (y * target) * c && (b * r) * target == b * (r * target) && b * (
        excess * c) == (b * excess) * c) by (nonlinear_arith);
        assert(b * (r * target) >= 0 && (b * excess) * c >= 0) by (nonlinear_arith)
            requires
                b >= 0,
                r >= 0,
                target >= 0,
                excess >= 0,
                c >= 0,
        ;
        lemma_close_trans((y * target) * c, b * (r * target), 1, (b * excess) * c, 3);
        lemma_close_scale(y * target, b * excess, 5, c);
        assert(y * c <= 2 * (k * c));
        assert(y <= 2 * k) by (nonlinear_arith)
            requires
                y * c <= 2 * (k * c),
                c > 0,
        ;
    }
    let y = m.mag() as int;
    let s = of_whole(1).sum(m);
    lemma_sum_close(of_whole(1), m);
    let sv = s.mag() as int;
    lemma_sum_above(of_whole(1), m);
    lemma_mag_order(of_whole(1), s);
    assert(sv >= c);
    let d = target * c + b * excess;
    assert(b * excess >= 0 && target * c > 0 && y * target >= 0) by (nonlinear_arith)
        requires
            b >= 0,
            excess >= 0,
            target > 0,
            c > 0,
            y >= 0,
    ;
    lemma_close_sum(target * c, target * c, y * target, b * excess, 5);
    lemma_close_scale(sv, c + y, 1, target);
    assert((c + y) * target == target * c + y * target) by (nonlinear_arith);
    lemma_close_trans(sv * target, (c + y) * target, 1, d, 5);
    // one over the sum
    let kept = of_whole(1).quot(s);
    assert(c * c >= 0x10_0000_0000_0000 * sv) by (nonlinear_arith)
        requires
            sv <= 0x20_0000_0000_0000_0000_0000_0000_0000_0000_0000_0000_0000_0000 * c,
            c
                >= 0x1_0000_0000_0000_0000_0000_0000_0000_0000_0000_0000_0000_0000_0000_0000_0000_0000,
    ;
    lemma_quot_close(of_whole(1), s);
    lemma_quot_at_most_one(of_whole(1), s);
    lemma_order(kept, of_whole(1));
    lemma_mag_order(of_whole(1), kept);
    let f = kept.mag() as int;
    assert(f > 0) by {
        if f == 0 {
            assert(f * sv == 0 && c * c > 0) by (nonlinear_arith)
                requires
                    f == 0,
                    c > 0,
            ;
        }
    }
    lemma_close_scale(f * sv, c * c, 1, target);
    assert(sv * target >= 0) by (nonlinear_arith)
        requires
            sv >= 0,
            target >= 0,
    ;
    lemma_close_swap(sv * target, d, 7);
    lemma_close_scale(d, sv * target, 8, f);
    assert((f * sv) * target == f * (sv * target) && (c * c) * target == (target * c) * c)
        by (nonlinear_arith);
    assert(f * (sv * target) >= 0 && (target * c) * c >= 0) by (nonlinear_arith)
        requires
            f >= 0,
            sv >= 0,
            target >= 0,
            c >= 0,
            sv * target >= 0,
    ;
    lemma_close_trans(f * d, f * (sv * target), 8, (target * c) * c, 1);
}

/// The bonus for free room is the strength times the free share, up to the cap.
pub proof fn law_free_room_is_rewarded(cfg: Config, ratio: F64)
    requires
        cfg.headroom_k.plain(),
        cfg.headroom_k.mag() <= 0x1_0000_0000_0000_0000 * one(),
        cfg.headroom_cap.plain(),
        ratio.plain(),
    ensures
        ({
            let c = one() as int;
            let share = least(ratio.value(), c);
            let boost = headroom_boost(cfg, ratio);
            &&& boost.plain()
            &&& boost.value() <= cfg.headroom_cap.value()
            &&& close(
                c * boost.value(),
                least(c * c + cfg.headroom_k.value() * share, c * cfg.headroom_cap.value()),
                3,
            )
        }),
{
    lemma_double();
    lemma_large_one();
    lemma_zero_one();
    lemma_whole_exact(1);
    let u = parts();
    let c = one() as int;
    let (zero, w1) = (signed(false, 0), of_whole(1));
    lemma_order(ratio, w1);
    lemma_order(w1, ratio);
    let q = ratio.clamped(zero, w1);
    let (k, x) = (cfg.headroom_k.mag() as int, q.mag() as int);
    assert(x == least(ratio.value(), c));
    let p = k * x;
    let big = pow2(2000) as int;
    assert(0 <= p <= (0x1_0000_0000_0000_0000 * c) * c) by (nonlinear_arith)
        requires
            p == k * x,
            0 <= k <= 0x1_0000_0000_0000_0000 * c,
            0 <= x <= c,
    ;
    assert((0x1_0000_0000_0000_0000 * c) * c <= big * c) by (nonlinear_arith)
        requires
            0x1_0000_0000_0000_0000 * c <= big,
            c >= 0,
    ;
    lemma_prod_near(cfg.headroom_k, q);
    let m = cfg.headroom_k.prod(q);
    let y = m.mag() as int;
    assert(y <= 0x4_0000_0000_0000_0000 * c) by (nonlinear_arith)
        requires
            u * (y * c - p) <= p + u * c,
            0 <= p <= (0x1_0000_0000_0000_0000 * c) * c,
            u == 0x20_0000_0000_0000,
            c >= 0x1_0000_0000_0000_0000_0000_0000_0000_0000,
            y >= 0,
    {
        assert(u * (y * c) <= (u + 1) * p + u * c);
        assert(y * c <= 2 * p + c);
        assert(y * c <= (0x2_0000_0000_0000_0000 * c + 1) * c);
    }
    lemma_sum_close(w1, m);
    let raw = w1.sum(m);
    let r = raw.mag() as int;
    let t = c * c + p;
    assert(close(c * r, t, 3)) by {
        assert(u * (c * r - (c * c + y * c)) <= c * c + y * c && u * ((c * c + y * c) - c * r) <= c
            * c + y * c) by (nonlinear_arith)
            requires
                u * (r - (c + y)) <= c + y,
                u * ((c + y) - r) <= c + y,
                c > 0,
        {
            assert((u * (r - (c + y))) * c <= (c + y) * c);
            assert((u * ((c + y) - r)) * c <= (c + y) * c);
        }
        assert(u * c <= c * c) by (nonlinear_arith)
            requires
                u <= c,
                c > 0,
        ;
        assert(2 * (u * c) <= c * c) by (nonlinear_arith)
            requires
                2 * u <= c,
                c > 0,
        ;
    }
    let cap = cfg.headroom_cap;
    lemma_order(raw, cap);
    lemma_order(cap, raw);
    let z = c * cap.value();
    assert(z >= 0) by (nonlinear_arith)
        requires
            z == c * cap.value(),
            c >= 0,
            cap.value() >= 0,
    ;
    assert(t >= 0) by (nonlinear_arith)
        requires
            t == c * c + p,
            p >= 0,
    ;
    lemma_close_order(c * r, t, z, z, 3);
    let b = raw.smaller(cap);
    assert(c * b.value() == least(c * r, z)) by (nonlinear_arith)
        requires
            b.value() == least(r, cap.value()),
            z == c * cap.value(),
            c > 0,
    ;
}

/// A candidate that arrives by the end of the budget behind the fastest keeps its weight, and so
/// does every candidate where reordering is not guarded against; one that arrives later is damped.
/// At the end of the budget, rounding decides.
pub proof fn law_late_candidates_are_gated(
    cfg: Config,
    c: Candidate,
    fastest: Candidate,
    gate: F64,
)
    requires
        c.eta_ms.plain(),
        fastest.eta_ms.plain(),
        reorder_budget(cfg, fastest).plain(),
        fastest.eta_ms.mag() <= 0x1_0000_0000_0000_0000_0000_0000_0000_0000_0000 * one(),
        reorder_budget(cfg, fastest).mag() <= 0x1_0000_0000_0000_0000 * one(),
    ensures
        ({
            let limit = fastest.eta_ms.value() + reorder_budget(cfg, fastest).value();
            &&& !cfg.enable_blest || c.eta_ms.value() <= limit ==> order_factor(
                cfg,
                c,
                fastest,
                gate,
            ).value() == one()
            &&& cfg.enable_blest && parts() * c.eta_ms.value() > (parts() + 1) * limit
                ==> order_factor(cfg, c, fastest, gate) == gate
        }),
{
    lemma_double();
    lemma_large_one();
    lemma_whole_exact(1);
    let b = reorder_budget(cfg, fastest);
    lemma_sum_close(fastest.eta_ms, b);
    let s = fastest.eta_ms.sum(b);
    let limit = fastest.eta_ms.mag() + b.mag();
    lemma_order(c.eta_ms, s);
    lemma_mag_order(s, c.eta_ms);
    if c.eta_ms.mag() <= limit {
        lemma_sum_pattern(fastest.eta_ms, b);
        lemma_units_at_least(limit, c.eta_ms.low());
    }
}

/// The exponent that damps a late candidate is the time beyond the budget over the time constant,
/// negated.
pub proof fn law_gates_fall_with_the_lateness(cfg: Config, c: Candidate, fastest: Candidate)
    requires
        c.eta_ms.plain(),
        fastest.eta_ms.plain(),
        reorder_budget(cfg, fastest).plain(),
        fastest.eta_ms.mag() <= 0x1_0000_0000_0000_0000_0000_0000_0000_0000_0000 * one(),
        c.eta_ms.mag() <= 0x1_0000_0000_0000_0000_0000_0000_0000_0000_0000 * one(),
        one() <= reorder_budget(cfg, fastest).mag() <= 0x1_0000_0000_0000_0000 * one(),
        common(cfg.blest_tau_ms),
        late(cfg, c, fastest),
    ensures
        ({
            let limit = fastest.eta_ms.sum(reorder_budget(cfg, fastest)).value();
            let e = gate_exponent(cfg, c, fastest);
            &&& close(
                limit,
                fastest.eta_ms.value() + reorder_budget(cfg, fastest).value(),
                1,
            )
            &&& e.finite()
            &&& e.value() <= 0
            &&& close(
                (-e.value()) * cfg.blest_tau_ms.value(),
                (c.eta_ms.value() - limit) * one(),
                3,
            )
        }),
{
    lemma_double();
    lemma_large_one();
    lemma_very_large_one();
    lemma_zero_one();
    lemma_whole_exact(1);
    let k = one() as int;
    let b = reorder_budget(cfg, fastest);
    lemma_sum_close(fastest.eta_ms, b);
    let s = fastest.eta_ms.sum(b);
    lemma_sum_above(fastest.eta_ms, b);
    lemma_mag_order(of_whole(1), b);
    lemma_mag_order(b, of_whole(1));
    lemma_mag_order(b, s);
    lemma_order(c.eta_ms, s);
    lemma_mag_order(s, c.eta_ms);
    lemma_mag_order(c.eta_ms, s);
    assert(s.low() >= 0x10_0000_0000_0000);
    let d = c.eta_ms.diff(s);
    lemma_diff_close(c.eta_ms, s);
    lemma_gap(s, c.eta_ms);
    let x = c.eta_ms.mag() - s.mag();
    let y = d.mag() as int;
    let t = cfg.blest_tau_ms.mag() as int;
    lemma_mag_order(cfg.blest_tau_ms, signed(false, 0));
    assert(2 * y >= x);
    let big = pow2(2000) as int;
    assert(y * k >= 0x10_0000_0000_0000 * t && y * k <= big * t) by (nonlinear_arith)
        requires
            2 * y >= x,
            0x20_0000_0000_0000 * x >= k,
            y <= 0x2_0000_0000_0000_0000_0000_0000_0000_0000_0000 * k,
            0 < t <= 0x1_0000_0000_0000_0000 * k,
            k <= 0x1_0000_0000_0000_0000 * t,
            k >= 0x1_0000_0000_0000_0000_0000_0000_0000_0000_0000_0000_0000_0000_0000_0000_0000_0000,
            big >= 0x1_0000_0000_0000_0000_0000_0000_0000_0000_0000_0000_0000_0000_0000_0000_0000_0000 * k,
    {
        assert(0x40_0000_0000_0000 * (y * k) >= k * k);
        assert(k * k >= (0x10_0000_0000_0000 * 0x40_0000_0000_0000) * t);
        assert(y * k <= (0x2_0000_0000_0000_0000_0000_0000_0000_0000_0000 * k) * k);
        assert((0x2_0000_0000_0000_0000_0000_0000_0000_0000_0000 * k) * k
            <= (0x2_0000_0000_0000_0000_0000_0000_0000_0000_0000 * k) * (0x1_0000_0000_0000_0000
            * t));
        assert(big * t >= (0x1_0000_0000_0000_0000_0000_0000_0000_0000_0000_0000_0000_0000_0000_0000_0000_0000 * k) * t);
    }
    lemma_quot_close(d, cfg.blest_tau_ms);
    let q = d.quot(cfg.blest_tau_ms);
    let r = q.mag() as int;
    lemma_close_scale(y, x, 1, k);
    assert(y * k >= 0 && x * k >= 0) by (nonlinear_arith)
        requires
            y >= 0,
            x >= 0,
            k >= 0,
    ;
    lemma_close_trans(r * t, y * k, 1, x * k, 1);
    assert(gate_exponent(cfg, c, fastest) == q.negated());
    assert(q.negated().value() == -r);
}

/// `x` is `n` over `d`, but for `k` parts and `e` units.
pub open spec fn near(x: F64, n: int, d: int, k: int, e: int) -> bool {
    &&& x.plain()
    &&& parts() * (x.value() * d - n) <= k * n + parts() * (e * d)
    &&& parts() * (n - x.value() * d) <= k * n + parts() * (e * d)
}

/// A product with one more factor.
proof fn lemma_near_product(x: F64, f: F64, n: int, d: int, k: int, e: int, m: int)
    requires
        near(x, n, d, k, e),
        f.plain(),
        f.mag() <= m * one(),
        x.mag() <= 0x1_0000_0000_0000_0000_0000_0000 * one(),
        0 <= k <= 100,
        e >= 1,
        1 <= m <= 0x1_0000_0000_0000_0000,
        n >= 0,
        d > 0,
    ensures
        near(x.prod(f), n * f.value(), d * one(), k + 2, 1 + 2 * (e * m)),
        x.prod(f).mag() <= 2 * (m * x.mag()) + 2,
        n * f.value() >= 0,
        d * one() > 0,
{
    lemma_large_one();
    let u = parts();
    let c = one() as int;
    let (a, b) = (x.mag() as int, f.mag() as int);
    let p = a * b;
    let big = pow2(2000) as int;
    assert(p <= a * (m * c)) by (nonlinear_arith)
        requires
            p == a * b,
            0 <= b <= m * c,
            a >= 0,
    ;
    assert(a * (m * c) == (m * a) * c) by (nonlinear_arith);
    assert(m * a <= 0x1_0000_0000_0000_0000 * a) by (nonlinear_arith)
        requires
            m <= 0x1_0000_0000_0000_0000,
            a >= 0,
    ;
    assert((m * a) * c <= big * c) by (nonlinear_arith)
        requires
            m * a <= big,
            c >= 0,
    ;
    lemma_prod_near(x, f);
    let y = x.prod(f);
    let r = y.mag() as int;
    assert(r <= 2 * (m * a) + 2) by (nonlinear_arith)
        requires
            u * (r * c - p) <= p + u * c,
            p <= (m * a) * c,
            u == 0x20_0000_0000_0000,
            c > 0,
            p >= 0,
            m * a >= 0,
            r >= 0,
    {
        assert(u * (r * c) <= (u + 1) * p + u * c);
        assert(r * c <= 2 * p + c);
        assert(r * c <= (2 * (m * a) + 1) * c);
    }
    let (n2, d2) = (n * b, d * c);
    assert(n2 >= 0 && d2 > 0 && p >= 0 && m * a >= 0) by (nonlinear_arith)
        requires
            n2 == n * b,
            d2 == d * c,
            n >= 0,
            b >= 0,
            d > 0,
            c > 0,
            p == a * b,
            a >= 0,
            m >= 0,
    ;
    // the error of the product, and that of its first factor
    let g = p * d;
    let (v, q) = (r * c - p, p + u * c);
    assert(v * d == (r * c) * d - g) by (nonlinear_arith)
        requires
            v == r * c - p,
            g == p * d,
    ;
    assert(q * d == g + u * d2) by (nonlinear_arith)
        requires
            q == p + u * c,
            g == p * d,
            d2 == d * c,
    ;
    assert((u * v) * d <= q * d && (u * (-v)) * d <= q * d) by (nonlinear_arith)
        requires
            u * v <= q,
            u * (-v) <= q,
            d > 0,
    ;
    assert((u * v) * d == u * (v * d) && (u * (-v)) * d == u * (-(v * d))) by (nonlinear_arith);
    let h = (e * d) * b;
    let (s, t) = (a * d - n, k * n + u * (e * d));
    assert(s * b == g - n2) by (nonlinear_arith)
        requires
            s == a * d - n,
            g == p * d,
            p == a * b,
            n2 == n * b,
    ;
    assert((k * n) * b == k * n2) by (nonlinear_arith)
        requires
            n2 == n * b,
    ;
    assert((u * (e * d)) * b == u * h) by (nonlinear_arith)
        requires
            h == (e * d) * b,
    ;
    assert(t * b == k * n2 + u * h) by (nonlinear_arith)
        requires
            t == k * n + u * (e * d),
            (k * n) * b == k * n2,
            (u * (e * d)) * b == u * h,
    ;
    assert((u * s) * b <= t * b && (u * (-s)) * b <= t * b) by (nonlinear_arith)
        requires
            u * s <= t,
            u * (-s) <= t,
            b >= 0,
    ;
    assert((u * s) * b == u * (s * b) && (u * (-s)) * b == u * (-(s * b))) by (nonlinear_arith);
    assert(h <= (e * m) * d2) by (nonlinear_arith)
        requires
            h == (e * d) * b,
            b <= m * c,
            d2 == d * c,
            e >= 1,
            d > 0,
    {
        assert((e * d) * b <= (e * d) * (m * c));
    }
    assert(h >= 0) by (nonlinear_arith)
        requires
            h == (e * d) * b,
            e >= 0,
            d >= 0,
            b >= 0,
    ;
    // g is at most n2 with its error
    assert(g <= 2 * n2 + h) by (nonlinear_arith)
        requires
            u * (g - n2) <= k * n2 + u * h,
            0 <= k <= 100,
            n2 >= 0,
            u == 0x20_0000_0000_0000,
    {
        assert(k * n2 <= u * n2);
    }
    assert((r * c) * d == r * d2) by (nonlinear_arith)
        requires
            d2 == d * c,
    ;
    let e2 = 1 + 2 * (e * m);
    assert((k + 2) * n2 == k * n2 + 2 * n2) by (nonlinear_arith);
    assert(e2 * d2 == d2 + 2 * ((e * m) * d2)) by (nonlinear_arith)
        requires
            e2 == 1 + 2 * (e * m),
    ;
    assert(n * f.value() == n2 && d * one() == d2);
    assert(h <= u * h);
}

/// The first path with an identifier stands at the place `j`.
pub open spec fn first_path(paths: Seq<PathSnapshot>, id: PathId, j: int) -> bool {
    &&& 0 <= j < paths.len()
    &&& paths[j].id == id
    &&& forall|i: int| 0 <= i < j ==> (#[trigger] paths[i]).id != id
}

proof fn lemma_first_path(paths: Seq<PathSnapshot>, id: PathId, j: int)
    requires
        first_path(paths, id, j),
    ensures
        find_path(paths, id) == Some(paths[j]),
    decreases paths.len(),
{
    if j > 0 {
        assert(paths[0].id != id);
        let rest = paths.drop_first();
        assert forall|i: int| 0 <= i < j - 1 implies (#[trigger] rest[i]).id != id by {
            assert(paths[i + 1].id != id);
        }
        lemma_first_path(rest, id, j - 1);
    }
}

/// The factors of a raw weight are numbers of the size that they should have.
pub open spec fn factors_fit(loss: F64, queue: F64, order: F64, boost: F64) -> bool {
    &&& loss.plain() && loss.mag() <= one()
    &&& queue.plain() && queue.mag() <= one()
    &&& order.plain() && order.mag() <= one()
    &&& boost.plain() && boost.mag() <= 0x1_0000_0000_0000_0000 * one()
}

/// The raw weight of a path is the product of its bandwidth and what it keeps for its loss, its
/// queueing and its time of arrival, with the bonus for its room; a product below a billionth
/// counts as nothing. At a billionth, rounding decides.
#[verifier::rlimit(40)]
pub proof fn law_raw_weights_are_products(
    cfg: Config,
    paths: Seq<PathSnapshot>,
    c: Candidate,
    fastest: Candidate,
    gate: F64,
    j: int,
)
    requires
        first_path(paths, c.id, j),
        paths[j].bw_est_bps.plain(),
        paths[j].bw_est_bps.mag() <= 0x1_0000_0000_0000_0000 * one(),
        factors_fit(
            loss_factor(cfg, paths[j].loss_rate.widened()),
            queue_factor(cfg, c.queue_delay_ms),
            order_factor(cfg, c, fastest, gate),
            headroom_boost(
                cfg,
                headroom_ratio(paths[j].bw_est_bps.larger(of_whole(1)), paths[j]),
            ),
        ),
    ensures
        ({
            let u = one() as int;
            let bw = most(paths[j].bw_est_bps.value(), u);
            let product = bw * loss_factor(cfg, paths[j].loss_rate.widened()).value()
                * queue_factor(cfg, c.queue_delay_ms).value() * order_factor(
                cfg,
                c,
                fastest,
                gate,
            ).value() * headroom_boost(
                cfg,
                headroom_ratio(paths[j].bw_est_bps.larger(of_whole(1)), paths[j]),
            ).value();
            let scale = u * u * u * u;
            let raw = raw_weight(cfg, paths, c, fastest, gate).value();
            &&& 1_000_000_000 * product >= 2 * (scale * u) ==> close(raw * scale, product, 10)
            &&& 2_000_000_000 * product <= scale * u ==> raw == 0
        }),
{
    lemma_double();
    lemma_large_one();
    lemma_very_large_one();
    lemma_zero_one();
    lemma_whole_exact(1);
    lemma_fraction_close(1, 1_000_000_000);
    lemma_first_path(paths, c.id, j);
    let p = paths[j];
    let u = one() as int;
    let bw = p.bw_est_bps.larger(of_whole(1));
    lemma_order(p.bw_est_bps, of_whole(1));
    let b = bw.value();
    assert(bw.plain() && b == most(p.bw_est_bps.value(), u));
    let f1 = loss_factor(cfg, p.loss_rate.widened());
    let f2 = queue_factor(cfg, c.queue_delay_ms);
    let f3 = order_factor(cfg, c, fastest, gate);
    let f4 = headroom_boost(cfg, headroom_ratio(bw, p));
    assert(near(bw, b, 1, 0, 1)) by {
        assert(b * 1 == b);
    }
    lemma_near_product(bw, f1, b, 1, 0, 1, 1);
    let (x1, n1, d1) = (bw.prod(f1), b * f1.value(), 1 * u);
    lemma_near_product(x1, f2, n1, d1, 2, 3, 1);
    let (x2, n2, d2) = (x1.prod(f2), n1 * f2.value(), d1 * u);
    lemma_near_product(x2, f3, n2, d2, 4, 7, 1);
    let (x3, n3, d3) = (x2.prod(f3), n2 * f3.value(), d2 * u);
    lemma_near_product(x3, f4, n3, d3, 6, 15, 0x1_0000_0000_0000_0000);
    let (x4, n4, d4) = (x3.prod(f4), n3 * f4.value(), d3 * u);
    let e = 1 + 30 * 0x1_0000_0000_0000_0000int;
    assert(near(x4, n4, d4, 8, e));
    let scale = u * u * u * u;
    assert(d4 == scale);
    let raw = raw_weight(cfg, paths, c, fastest, gate);
    let least = fraction(1, 1_000_000_000);
    lemma_threshold_of_product(x4.value(), n4, scale, u, e, least.value());
    lemma_order(x4, least);
    lemma_mag_order(x4, least);
    lemma_mag_order(least, x4);
}

/// A product that is well above a billionth is not below it, and the other way round.
proof fn lemma_threshold_of_product(x: int, n: int, d: int, c: int, e: int, least: int)
    requires
        parts() * (x * d - n) <= 8 * n + parts() * (e * d),
        parts() * (n - x * d) <= 8 * n + parts() * (e * d),
        close(1_000_000_000 * least, c, 1),
        x >= 0,
        n >= 0,
        d > 0,
        0 <= e <= 0x100_0000_0000_0000_0000,
        c >= 0x1_0000_0000_0000_0000_0000_0000_0000_0000_0000_0000_0000_0000_0000_0000_0000_0000,
    ensures
        1_000_000_000 * n >= 2 * (d * c) ==> x >= least && close(x * d, n, 10),
        2_000_000_000 * n <= d * c ==> x < least,
{
    let u = parts();
    let g = 1_000_000_000int;
    // the units are few
    assert(4 * (g * (u * (e * d))) <= d * c) by (nonlinear_arith)
        requires
            0 <= e <= 0x100_0000_0000_0000_0000,
            u == 0x20_0000_0000_0000,
            g == 1_000_000_000,
            d > 0,
            c >= 0x1_0000_0000_0000_0000_0000_0000_0000_0000_0000_0000_0000_0000,
    {
        assert(4 * (g * (u * e)) <= c);
        assert((4 * (g * (u * e))) * d <= c * d);
    }
    let w = u * (e * d);
    if g * n >= 2 * (d * c) {
        assert(w <= n);
        assert(close(x * d, n, 10));
        assert(x >= least) by {
            if x < least {
                assert(x * d <= least * d) by (nonlinear_arith)
                    requires
                        x <= least,
                        d > 0,
                ;
                assert((g * least) * d <= (2 * c) * d - 1) by (nonlinear_arith)
                    requires
                        3 * (g * least) <= 4 * c,
                        d > 0,
                        c > 3,
                ;
                assert(g * (least * d) == (g * least) * d && (2 * c) * d == 2 * (d * c))
                    by (nonlinear_arith);
                assert(3 * ((g * least) * d) <= 4 * (d * c)) by (nonlinear_arith)
                    requires
                        3 * (g * least) <= 4 * c,
                        d > 0,
                ;
            }
        }
    }
    if 2 * (g * n) <= d * c {
        assert(x < least) by {
            if x >= least {
                assert(x * d >= least * d) by (nonlinear_arith)
                    requires
                        x >= least,
                        d > 0,
                ;
                assert(g * (least * d) == (g * least) * d) by (nonlinear_arith);
                assert(8 * ((g * least) * d) >= 7 * (d * c)) by (nonlinear_arith)
                    requires
                        8 * (g * least) >= 7 * c,
                        d > 0,
                ;
                assert(d * c > 0) by (nonlinear_arith)
                    requires
                        d > 0,
                        c > 0,
                ;
            }
        }
    }
}

/// What a scheduler has unless other parameters are set: the weights of a score, the strengths of
/// the penalties and of the bonus, and the limits.
pub proof fn law_default_parameters()
    ensures
        ({
            let c = one() as int;
            let d = default_config();
            &&& d.w1_bw.value() == c
            &&& close(5 * d.w2_headroom.value(), 4 * c, 1)
            &&& close(5 * d.w3_loss.value(), 6 * c, 1)
            &&& close(20 * d.w4_qdelay.value(), c, 1)
            &&& d.loss_gamma.value() == c
            &&& close(5 * d.qaware_beta.value(), 3 * c, 1)
            &&& d.blest_tau_ms.value() == 20 * c
            &&& close(2 * d.headroom_k.value(), c, 1)
            &&& close(2 * d.headroom_cap.value(), 3 * c, 1)
            &&& close(5 * d.smooth_alpha.value(), 3 * c, 1)
            &&& d.min_share.value() == 0
            &&& close(20 * d.redundancy_min_weight.value(), c, 1)
            &&& d.target_qdelay_ms == 10
            &&& d.short_flow_thresh == 128 * 1024
            &&& d.idle_burst_ms == 250
            &&& d.blest_delta_cap_ms == 25
            &&& d.redundancy_epoch_budget_pkts == 32
            &&& d.enable_blest && d.enable_qaware && d.enable_redundancy
        }),
{
    lemma_zero_one();
    lemma_whole_exact(1);
    lemma_whole_exact(20);
    lemma_fraction_close(4, 5);
    lemma_fraction_close(6, 5);
    lemma_fraction_close(1, 20);
    lemma_fraction_close(3, 5);
    lemma_fraction_close(1, 2);
    lemma_fraction_close(3, 2);
}

/// The parameters for a first deployment are the default ones with every guard off. Those for low
/// delay weigh each part of a score more, halve the target and double the length of short flows.
pub proof fn law_other_parameters()
    ensures
        ({
            let c = one() as int;
            let (d, s, a) = (default_config(), conservative_config(), aggressive_config());
            &&& !s.enable_blest && !s.enable_qaware && !s.enable_redundancy
            &&& s == (Config { enable_blest: false, enable_qaware: false, enable_redundancy: false, ..d })
            &&& close(2 * a.w1_bw.value(), 3 * c, 1)
            &&& a.w2_headroom.value() == c
            &&& a.w3_loss.value() == 2 * c
            &&& close(10 * a.w4_qdelay.value(), c, 1)
            &&& 2 * a.target_qdelay_ms == d.target_qdelay_ms
            &&& a.short_flow_thresh == 2 * d.short_flow_thresh
            &&& a == (Config {
                w1_bw: a.w1_bw,
                w2_headroom: a.w2_headroom,
                w3_loss: a.w3_loss,
                w4_qdelay: a.w4_qdelay,
                target_qdelay_ms: a.target_qdelay_ms,
                short_flow_thresh: a.short_flow_thresh,
                ..d
            })
        }),
{
    lemma_whole_exact(1);
    lemma_whole_exact(2);
    lemma_fraction_close(3, 2);
    lemma_fraction_close(1, 10);
}

} // verus!
