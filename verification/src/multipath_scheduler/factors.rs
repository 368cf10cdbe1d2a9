//! The factors of a raw weight move it the right way: more loss, more queueing and later
//! arrival never raise it, and more room never lowers it.
use vstd::arithmetic::power2::{lemma2_to64_rest, lemma_pow2_pos};
use vstd::prelude::*;

use crate::multipath_scheduler::candidate::Candidate;
use crate::multipath_scheduler::plan::{
    find_path, headroom_boost, headroom_ratio, loss_factor, order_factor, queue_factor, raw_weight,
};
use crate::multipath_scheduler::weights::unit;
use crate::multipath_scheduler::{Config, PathSnapshot};
use crate::num::bounds::{
    lemma_order, lemma_prod_monotone, lemma_prod_pattern, lemma_quot_monotone, lemma_quot_pattern,
    lemma_sum_above, lemma_sum_monotone, lemma_sum_pattern, lemma_units_at_most,
};
use crate::num::double::{fraction, lemma_double, lemma_mag_order, of_whole, signed, F64, INFINITE};
use crate::num::exact::{lemma_fraction_digits, lemma_whole_exact, one};
use crate::num::facts::{
    lemma_fraction_at_most_one, lemma_quot_at_most_one, lemma_whole_finite, lemma_zero_one,
};
use crate::num::format::{
    double, lemma_nearest, lemma_nearest_at_most, lemma_nearest_monotone, Exact,
};

verus! {

/// Parameters that are numbers of the kind they stand for.
pub open spec fn sound(cfg: Config) -> bool {
    &&& cfg.loss_gamma.plain()
    &&& cfg.qaware_beta.plain()
    &&& cfg.headroom_k.plain()
    &&& cfg.headroom_cap.plain()
    &&& cfg.target_qdelay_ms > 0
}

/// Taking more from one leaves less.
proof fn lemma_left_of_one(p: F64, q: F64)
    requires
        p.nonneg(),
        q.nonneg(),
        p.low() <= q.low(),
    ensures
        of_whole(1).diff(q).at_most(of_whole(1).diff(p)),
        of_whole(1).diff(p).at_most(of_whole(1)),
{
    lemma_double();
    lemma_zero_one();
    lemma_whole_exact(1);
    lemma_order(p, q);
    lemma_mag_order(p, q);
    let (a, b) = (of_whole(1).diff(p), of_whole(1).diff(q));
    lemma_mag_order(a, signed(false, INFINITE as nat));
    lemma_mag_order(a, of_whole(1));
    lemma_mag_order(of_whole(1), a);
    assert(p.negated().low() == p.low());
    assert(q.negated().low() == q.low());
    if p.finite() {
        let s = one() - p.mag();
        let n = if s < 0 {
            (-s) as nat
        } else {
            s as nat
        };
        lemma_nearest(double(), Exact::Ratio { p: n, q: 1 });
        if s > 0 {
            lemma_units_at_most(n, of_whole(1).low());
        }
        if q.finite() {
            let t = one() - q.mag();
            let m = if t < 0 {
                (-t) as nat
            } else {
                t as nat
            };
            lemma_nearest(double(), Exact::Ratio { p: m, q: 1 });
            lemma_mag_order(a, b);
            lemma_mag_order(b, a);
            if t > 0 {
                lemma_nearest_monotone(double(), m, n, 1);
            } else if s < 0 {
                lemma_nearest_monotone(double(), n, m, 1);
            }
        }
    }
}

/// Keeping numbers between two bounds keeps their order.
proof fn lemma_clamped_order(a: F64, b: F64, lo: F64, hi: F64)
    requires
        a.at_most(b),
        lo.at_most(hi),
    ensures
        a.clamped(lo, hi).at_most(b.clamped(lo, hi)),
        lo.at_most(a.clamped(lo, hi)),
        a.clamped(lo, hi).at_most(hi),
{
}

/// More loss never raises the factor for loss, which lies between a fifth and one.
pub proof fn law_loss_factor_falls(cfg: Config, less: F64, more: F64)
    requires
        cfg.loss_gamma.plain(),
        less.plain(),
        more.plain(),
        less.at_most(more),
    ensures
        loss_factor(cfg, more).at_most(loss_factor(cfg, less)),
        fraction(1, 5).at_most(loss_factor(cfg, less)),
        loss_factor(cfg, less).at_most(of_whole(1)),
        unit(loss_factor(cfg, less)),
{
    lemma_zero_one();
    lemma_order(less, more);
    lemma_fraction_at_most_one(1, 5);
    lemma_prod_monotone(cfg.loss_gamma, less, cfg.loss_gamma, more);
    let (p, q) = (cfg.loss_gamma.prod(less), cfg.loss_gamma.prod(more));
    lemma_left_of_one(p, q);
    let (a, b) = (of_whole(1).diff(p), of_whole(1).diff(q));
    lemma_clamped_order(b, a, fraction(1, 5), of_whole(1));
    lemma_clamped_order(a, a, fraction(1, 5), of_whole(1));
    lemma_fifth();
    let r = loss_factor(cfg, less);
    lemma_mag_order(r, fraction(1, 5));
    lemma_mag_order(fraction(1, 5), r);
    lemma_mag_order(r, of_whole(1));
    lemma_mag_order(of_whole(1), r);
    lemma_mag_order(fraction(1, 5), fraction(1, 5));
}

proof fn lemma_fifth()
    ensures
        fraction(1, 5).plain(),
        fraction(1, 5).low() > 0,
{
    lemma2_to64_rest();
    lemma_fraction_digits(1, 5, 55, 0x19_9999_9999_999a);
}

/// One over one and something more.
proof fn lemma_one_over(x: F64, y: F64)
    requires
        x.nonneg(),
        y.nonneg(),
        x.low() <= y.low(),
    ensures
        unit(of_whole(1).quot(of_whole(1).sum(x))),
        of_whole(1).quot(of_whole(1).sum(y)).at_most(of_whole(1).quot(of_whole(1).sum(x))),
{
    lemma_double();
    lemma_zero_one();
    lemma_whole_exact(1);
    let w = of_whole(1);
    let (a, b) = (w.sum(x), w.sum(y));
    if x.finite() {
        lemma_sum_above(w, x);
    }
    if y.finite() {
        lemma_sum_above(w, y);
        lemma_sum_monotone(w, x, w, y);
    }
    assert(a.nonneg() && b.nonneg() && w.low() <= a.low() <= b.low());
    let (u, v) = (w.quot(a), w.quot(b));
    if a.finite() {
        lemma_mag_order(w, a);
        lemma_quot_at_most_one(w, a);
        lemma_quot_pattern(w, a);
    }
    if b.finite() {
        lemma_quot_monotone(w, b, w, a);
    }
    lemma_order(u, w);
    lemma_order(v, u);
}

/// How far a delay lies beyond the target grows with the delay.
proof fn lemma_over_target(target: F64, a: F64, b: F64)
    requires
        target.plain(),
        target.mag() >= one(),
        a.plain(),
        b.plain(),
        target.low() < a.low(),
        a.low() <= b.low(),
    ensures
        ({
            let (x, y) = (
                a.diff(target).quot(target).larger(signed(false, 0)),
                b.diff(target).quot(target).larger(signed(false, 0)),
            );
            x.plain() && y.plain() && x.low() <= y.low()
        }),
{
    lemma_double();
    lemma_pow2_pos(1074);
    lemma_mag_order(target, a);
    lemma_mag_order(a, b);
    lemma_mag_order(target, target);
    let (m, n) = ((a.mag() - target.mag()) as nat, (b.mag() - target.mag()) as nat);
    lemma_nearest(double(), Exact::Ratio { p: m, q: 1 });
    lemma_nearest(double(), Exact::Ratio { p: n, q: 1 });
    lemma_nearest_monotone(double(), m, n, 1);
    lemma_units_at_most(m, a.low());
    lemma_units_at_most(n, b.low());
    let (d, e) = (a.diff(target), b.diff(target));
    assert(d.plain() && e.plain() && d.low() <= e.low());
    lemma_quot_monotone(d, target, e, target);
    lemma_over_finite(d, target);
    lemma_over_finite(e, target);
    lemma_order(d.quot(target), signed(false, 0));
    lemma_order(e.quot(target), signed(false, 0));
}

/// A number over one that is at least one is finite.
proof fn lemma_over_finite(d: F64, t: F64)
    requires
        d.plain(),
        t.plain(),
        t.mag() >= one(),
    ensures
        d.quot(t).plain(),
{
    lemma_double();
    lemma_pow2_pos(1074);
    lemma_mag_order(t, t);
    lemma_quot_pattern(d, t);
    let (m, s, c) = (d.mag(), t.mag(), one());
    assert(2 * (m * c) <= (2 * m) * s) by (nonlinear_arith)
        requires
            s >= c,
    ;
    lemma_nearest_at_most(double(), Exact::Ratio { p: m * c, q: s }, d.low());
}

/// More queueing never raises the factor for queueing, which is a share.
pub proof fn law_queue_factor_falls(cfg: Config, less: F64, more: F64)
    requires
        cfg.qaware_beta.plain(),
        cfg.target_qdelay_ms > 0,
        less.plain(),
        more.plain(),
        less.at_most(more),
    ensures
        queue_factor(cfg, more).at_most(queue_factor(cfg, less)),
        unit(queue_factor(cfg, less)),
        unit(queue_factor(cfg, more)),
{
    lemma_zero_one();
    lemma_order(less, more);
    let target = of_whole(cfg.target_qdelay_ms as nat);
    lemma_whole_exact(cfg.target_qdelay_ms as nat);
    lemma_whole_exact(1);
    let t = cfg.target_qdelay_ms as nat;
    assert(t * one() >= one()) by (nonlinear_arith)
        requires
            t >= 1,
    ;
    lemma_order(less, target);
    lemma_order(more, target);
    lemma_order(of_whole(1), of_whole(1));
    if cfg.enable_qaware && !more.at_most(target) {
        let y = more.diff(target).quot(target).larger(signed(false, 0));
        lemma_over_target(target, more, more);
        lemma_prod_monotone(cfg.qaware_beta, y, cfg.qaware_beta, y);
        lemma_one_over(cfg.qaware_beta.prod(y), cfg.qaware_beta.prod(y));
        if !less.at_most(target) {
            let x = less.diff(target).quot(target).larger(signed(false, 0));
            lemma_over_target(target, less, more);
            lemma_prod_monotone(cfg.qaware_beta, x, cfg.qaware_beta, y);
            lemma_one_over(cfg.qaware_beta.prod(x), cfg.qaware_beta.prod(y));
        }
    }
}

/// More room never lowers the bonus for room, which stays up to its cap.
pub proof fn law_headroom_boost_grows(cfg: Config, less: F64, more: F64)
    requires
        cfg.headroom_k.plain(),
        cfg.headroom_cap.plain(),
        less.plain(),
        more.plain(),
        less.at_most(more),
    ensures
        headroom_boost(cfg, less).at_most(headroom_boost(cfg, more)),
        headroom_boost(cfg, more).at_most(cfg.headroom_cap),
        headroom_boost(cfg, less).plain(),
        headroom_boost(cfg, more).plain(),
{
    lemma_zero_one();
    let zero = signed(false, 0);
    let w = of_whole(1);
    lemma_order(less, more);
    lemma_order(less, w);
    lemma_order(w, less);
    lemma_order(more, w);
    lemma_order(w, more);
    let (a, b) = (less.clamped(zero, w), more.clamped(zero, w));
    assert(a.plain() && b.plain() && a.low() <= b.low());
    lemma_prod_monotone(cfg.headroom_k, a, cfg.headroom_k, b);
    let (p, q) = (cfg.headroom_k.prod(a), cfg.headroom_k.prod(b));
    if q.finite() {
        lemma_sum_monotone(w, p, w, q);
    } else if p.finite() {
        lemma_sum_pattern(w, p);
    }
    let (x, y) = (w.sum(p), w.sum(q));
    assert(x.nonneg() && y.nonneg() && x.low() <= y.low());
    lemma_order(x, cfg.headroom_cap);
    lemma_order(cfg.headroom_cap, x);
    lemma_order(y, cfg.headroom_cap);
    lemma_order(cfg.headroom_cap, y);
    lemma_order(headroom_boost(cfg, less), headroom_boost(cfg, more));
    lemma_order(headroom_boost(cfg, more), cfg.headroom_cap);
}

/// A number times a share.
proof fn lemma_times_share(x: F64, a: F64, y: F64, b: F64)
    requires
        x.plain(),
        y.plain(),
        unit(a),
        unit(b),
        x.low() <= y.low(),
        a.at_most(b),
    ensures
        x.prod(a).plain(),
        y.prod(b).plain(),
        x.prod(a).low() <= y.prod(b).low(),
{
    lemma_double();
    lemma_zero_one();
    lemma_pow2_pos(1074);
    lemma_order(a, b);
    lemma_prod_monotone(x, a, y, b);
    lemma_stays_finite(x, a);
    lemma_stays_finite(y, b);
}

proof fn lemma_stays_finite(x: F64, a: F64)
    requires
        x.plain(),
        unit(a),
    ensures
        x.prod(a).plain(),
{
    lemma_double();
    lemma_zero_one();
    lemma_pow2_pos(1074);
    lemma_order(a, of_whole(1));
    lemma_mag_order(a, of_whole(1));
    lemma_prod_pattern(x, a);
    let (m, s, c) = (x.mag(), a.mag(), one());
    assert(2 * (m * s) <= (2 * m) * c) by (nonlinear_arith)
        requires
            s <= c,
    ;
    lemma_nearest_at_most(double(), Exact::Ratio { p: m * s, q: c }, x.low());
}

/// The product that makes a raw weight.
pub open spec fn raw_product(bw: F64, loss: F64, queue: F64, order: F64, boost: F64) -> F64 {
    let raw = bw.prod(loss).prod(queue).prod(order).prod(boost);
    if raw.less(fraction(1, 1_000_000_000)) {
        signed(false, 0)
    } else {
        raw
    }
}

/// Less bandwidth and smaller factors make a raw weight that is no larger.
pub proof fn law_raw_weight_grows_with_its_factors(
    bw1: F64,
    l1: F64,
    q1: F64,
    o1: F64,
    h1: F64,
    bw2: F64,
    l2: F64,
    q2: F64,
    o2: F64,
    h2: F64,
)
    requires
        bw1.plain() && bw2.plain() && bw1.at_most(bw2),
        unit(l1) && unit(q1) && unit(o1) && h1.plain(),
        unit(l2) && unit(q2) && unit(o2) && h2.plain(),
        l1.at_most(l2) && q1.at_most(q2) && o1.at_most(o2) && h1.at_most(h2),
    ensures
        raw_product(bw1, l1, q1, o1, h1).at_most(raw_product(bw2, l2, q2, o2, h2)),
{
    lemma_order(bw1, bw2);
    lemma_times_share(bw1, l1, bw2, l2);
    let (a1, a2) = (bw1.prod(l1), bw2.prod(l2));
    lemma_times_share(a1, q1, a2, q2);
    let (b1, b2) = (a1.prod(q1), a2.prod(q2));
    lemma_times_share(b1, o1, b2, o2);
    let (c1, c2) = (b1.prod(o1), b2.prod(o2));
    lemma_order(h1, h2);
    lemma_prod_monotone(c1, h1, c2, h2);
    let (d1, d2) = (c1.prod(h1), c2.prod(h2));
    let least = fraction(1, 1_000_000_000);
    lemma_fraction_at_most_one(1, 1_000_000_000);
    lemma_order(d1, d2);
    lemma_order(d1, least);
    lemma_order(d2, least);
    lemma_order(signed(false, 0), d2);
    lemma_order(signed(false, 0), signed(false, 0));
}

/// The input of a raw weight is made of numbers of the kind they stand for.
pub open spec fn weighable(cfg: Config, p: PathSnapshot, c: Candidate, gate: F64) -> bool {
    &&& sound(cfg)
    &&& p.bw_est_bps.finite()
    &&& p.loss_rate.widened().plain()
    &&& c.queue_delay_ms.plain()
    &&& unit(gate)
    &&& headroom_ratio(p.bw_est_bps.larger(of_whole(1)), p).plain()
}

/// Of two settings of one path, one with more loss, more queueing and a lower gate, that one
/// does not have the larger raw weight.
pub proof fn law_raw_weight_falls_with_loss_queueing_and_lateness(
    cfg: Config,
    better: Seq<PathSnapshot>,
    worse: Seq<PathSnapshot>,
    c1: Candidate,
    c2: Candidate,
    fastest: Candidate,
    g1: F64,
    g2: F64,
)
    requires
        find_path(better, c1.id) is Some,
        find_path(worse, c2.id) is Some,
        ({
            let (p, q) = (find_path(better, c1.id).unwrap(), find_path(worse, c2.id).unwrap());
            &&& weighable(cfg, p, c1, g1)
            &&& weighable(cfg, q, c2, g2)
            &&& q == (PathSnapshot { loss_rate: q.loss_rate, ..p })
            &&& p.loss_rate.widened().at_most(q.loss_rate.widened())
        }),
        c1.queue_delay_ms.at_most(c2.queue_delay_ms),
        order_factor(cfg, c2, fastest, g2).at_most(order_factor(cfg, c1, fastest, g1)),
    ensures
        raw_weight(cfg, worse, c2, fastest, g2).at_most(raw_weight(cfg, better, c1, fastest, g1)),
{
    lemma_zero_one();
    let (p, q) = (find_path(better, c1.id).unwrap(), find_path(worse, c2.id).unwrap());
    let bw = p.bw_est_bps.larger(of_whole(1));
    lemma_mag_order(p.bw_est_bps, of_whole(1));
    lemma_mag_order(of_whole(1), p.bw_est_bps);
    assert(bw.plain());
    let ratio = headroom_ratio(bw, p);
    assert(headroom_ratio(bw, q) == ratio);
    law_loss_factor_falls(cfg, p.loss_rate.widened(), q.loss_rate.widened());
    law_loss_factor_falls(cfg, q.loss_rate.widened(), q.loss_rate.widened());
    law_queue_factor_falls(cfg, c1.queue_delay_ms, c2.queue_delay_ms);
    law_headroom_boost_grows(cfg, ratio, ratio);
    lemma_order(of_whole(1), of_whole(1));
    lemma_order(bw, bw);
    law_raw_weight_grows_with_its_factors(
        bw,
        loss_factor(cfg, q.loss_rate.widened()),
        queue_factor(cfg, c2.queue_delay_ms),
        order_factor(cfg, c2, fastest, g2),
        headroom_boost(cfg, ratio),
        bw,
        loss_factor(cfg, p.loss_rate.widened()),
        queue_factor(cfg, c1.queue_delay_ms),
        order_factor(cfg, c1, fastest, g1),
        headroom_boost(cfg, ratio),
    );
}

/// Sums of numbers that are not negative, finite or not.
proof fn lemma_sum_nonneg(a: F64, b: F64)
    requires
        a.nonneg(),
        b.nonneg(),
    ensures
        a.sum(b).nonneg(),
        a.low() <= a.sum(b).low(),
{
    if a.finite() && b.finite() {
        lemma_sum_above(a, b);
    }
}

/// The time that some bytes take is not negative.
pub proof fn lemma_time_nonneg(n: nat, bw: F64)
    requires
        n <= u64::MAX,
        bw.nonneg(),
        bw.low() > 0,
    ensures
        of_whole(n).quot(bw).prod(of_whole(1000)).nonneg(),
{
    lemma_whole_finite(n as u64);
    lemma_whole_exact(1000);
    let t = of_whole(n).quot(bw);
    if bw.finite() {
        lemma_quot_pattern(of_whole(n), bw);
    }
    assert(t.nonneg());
    if t.finite() {
        lemma_prod_pattern(t, of_whole(1000));
    }
}

/// Of a usable path, the queueing delay and the room are never negative, and a packet never
/// arrives before it is sent.
pub proof fn law_delays_are_not_negative(p: PathSnapshot, now_ms: u64, packet_len: usize)
    requires
        p.usable(),
        p.srtt_ms.widened().plain(),
    ensures
        signed(false, 0).at_most(p.queue_delay()),
        signed(false, 0).at_most(p.headroom()),
        of_whole(now_ms as nat).at_most(p.eta(now_ms as nat, packet_len as nat)),
{
    lemma_double();
    lemma_zero_one();
    let bw = p.bw_est_bps;
    let zero = signed(false, 0);
    lemma_mag_order(bw, zero);
    lemma_mag_order(zero, bw);
    assert(bw.nonneg() && bw.low() > 0);
    lemma_order(bw, bw);
    lemma_time_nonneg(p.inflight_bytes as nat, bw);
    lemma_time_nonneg(packet_len as nat, bw);
    lemma_order(zero, p.queue_delay());
    lemma_mag_order(p.headroom(), zero);
    let half = fraction(1, 2).prod(p.srtt_ms.widened());
    lemma_fraction_at_most_one(1, 2);
    lemma_prod_pattern(fraction(1, 2), p.srtt_ms.widened());
    lemma_whole_finite(now_ms);
    let now = of_whole(now_ms as nat);
    let a = now.sum(p.queue_delay());
    let b = a.sum(p.serialization(packet_len as nat));
    lemma_sum_nonneg(now, p.queue_delay());
    lemma_sum_nonneg(a, p.serialization(packet_len as nat));
    lemma_sum_nonneg(b, half);
    lemma_order(now, p.eta(now_ms as nat, packet_len as nat));
}

} // verus!
