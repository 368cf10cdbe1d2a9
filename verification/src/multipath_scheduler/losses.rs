//! What the loss of one path does to the weights of a plan.
use vstd::arithmetic::power2::{lemma2_to64_rest, lemma_pow2_adds, lemma_pow2_pos};
use vstd::prelude::*;

use crate::multipath_scheduler::candidate::{
    by_eta, candidate, candidates, inserted, law_candidates_are_the_usable_paths, Candidate,
};
use crate::multipath_scheduler::factors::{
    law_headroom_boost_grows, law_loss_factor_falls, law_queue_factor_falls,
    law_raw_weight_grows_with_its_factors, lemma_time_nonneg, raw_product, sound,
};
use crate::multipath_scheduler::laws::{lemma_places_differ, lemma_ranked};
use crate::multipath_scheduler::plan::{
    find_path, headroom_boost, headroom_ratio, loss_factor, order_factor, plan_for,
    queue_factor, ranked_candidates, raw_weight, raws_of, redundancy_for, shares, smoothed_shares,
    total, usable_of, weights_for,
};
use crate::multipath_scheduler::weights::{
    all_plain, exact_sum, lemma_one_is_large, lemma_parts_at_most, lemma_raw_nonneg,
    lemma_raws_plain, lemma_share_error, lemma_shares_add_up, lemma_total_error, lemma_total_finite, unit,
};
use crate::multipath_scheduler::{default_config, Config, Epoch, PathId, PathSnapshot};
use crate::num::bounds::{lemma_order, lemma_prod_pattern, lemma_sum_monotone, lemma_units_at_most};
use crate::num::double::{fraction, lemma_double, lemma_mag_order, of_whole, signed, F64};
use crate::num::exact::{lemma_fraction_digits, lemma_whole_exact, one};
use crate::num::facts::{lemma_fraction_at_most_one, lemma_nearest_exact, lemma_zero_one};
use crate::num::format::{double, lemma_nearest, Exact};
use crate::num::single::F32;

verus! {

/// The input with another loss rate on one path.
pub open spec fn with_loss(inp: Epoch, k: int, loss_rate: F32) -> Epoch {
    Epoch {
        paths: inp.paths.update(k, PathSnapshot { loss_rate, ..inp.paths[k] }),
        ..inp
    }
}

/// The paths are the same but for their loss rates.
pub open spec fn alike(p: Seq<PathSnapshot>, q: Seq<PathSnapshot>) -> bool {
    &&& p.len() == q.len()
    &&& forall|i: int|
        0 <= i < p.len() ==> #[trigger] q[i] == (PathSnapshot { loss_rate: q[i].loss_rate, ..p[i] })
}

/// The candidates are the same but for their scores.
spec fn same_rank(c: Candidate, d: Candidate) -> bool {
    d == (Candidate { score: d.score, ..c })
}

spec fn same_ranks(s: Seq<Candidate>, t: Seq<Candidate>) -> bool {
    s.len() == t.len() && forall|i: int| 0 <= i < s.len() ==> same_rank(s[i], #[trigger] t[i])
}

proof fn lemma_same_candidates(
    cfg: Config,
    now_ms: nat,
    packet_len: nat,
    p: Seq<PathSnapshot>,
    q: Seq<PathSnapshot>,
)
    requires
        alike(p, q),
    ensures
        same_ranks(
            candidates(cfg, now_ms, packet_len, p),
            candidates(cfg, now_ms, packet_len, q),
        ),
    decreases p.len(),
{
    if p.len() > 0 {
        let (a, b) = (p.drop_last(), q.drop_last());
        assert forall|i: int| 0 <= i < a.len() implies #[trigger] b[i] == (PathSnapshot {
            loss_rate: b[i].loss_rate,
            ..a[i]
        }) by {
            assert(q[i] == b[i]);
        }
        lemma_same_candidates(cfg, now_ms, packet_len, a, b);
        let n = p.len() - 1;
        assert(q[n] == (PathSnapshot { loss_rate: q[n].loss_rate, ..p[n] }));
    }
}

proof fn lemma_same_inserted(s: Seq<Candidate>, t: Seq<Candidate>, c: Candidate, d: Candidate)
    requires
        same_ranks(s, t),
        same_rank(c, d),
    ensures
        same_ranks(inserted(s, c), inserted(t, d)),
    decreases s.len(),
{
    if s.len() > 0 {
        let n = s.len() - 1;
        assert(same_rank(s[n], t[n]));
        let (a, b) = (s.drop_last(), t.drop_last());
        assert forall|i: int| 0 <= i < a.len() implies same_rank(a[i], #[trigger] b[i]) by {
            assert(same_rank(s[i], t[i]));
        }
        lemma_same_inserted(a, b, c, d);
    }
}

proof fn lemma_same_order(s: Seq<Candidate>, t: Seq<Candidate>)
    requires
        same_ranks(s, t),
    ensures
        same_ranks(by_eta(s), by_eta(t)),
    decreases s.len(),
{
    if s.len() > 0 {
        let n = s.len() - 1;
        assert(same_rank(s[n], t[n]));
        let (a, b) = (s.drop_last(), t.drop_last());
        assert forall|i: int| 0 <= i < a.len() implies same_rank(a[i], #[trigger] b[i]) by {
            assert(same_rank(s[i], t[i]));
        }
        lemma_same_order(a, b);
        lemma_same_inserted(by_eta(a), by_eta(b), s.last(), t.last());
    }
}

/// Loss rates have no part in the order of arrival.
proof fn lemma_same_ranked(cfg: Config, a: Epoch, b: Epoch)
    requires
        alike(a.paths, b.paths),
        b == (Epoch { paths: b.paths, ..a }),
    ensures
        same_ranks(usable_of(cfg, a), usable_of(cfg, b)),
        same_ranks(ranked_candidates(cfg, a), ranked_candidates(cfg, b)),
{
    lemma_same_candidates(cfg, a.now_ms, a.packet_len_hint, a.paths, b.paths);
    lemma_same_order(usable_of(cfg, a), usable_of(cfg, b));
}

/// The paths found in alike paths are the same but for the loss rate.
proof fn lemma_same_found(p: Seq<PathSnapshot>, q: Seq<PathSnapshot>, id: PathId) -> (i: int)
    requires
        alike(p, q),
    ensures
        find_path(p, id) is None <==> find_path(q, id) is None,
        find_path(p, id) is Some ==> 0 <= i < p.len() && find_path(p, id) == Some(p[i])
            && find_path(q, id) == Some(q[i]) && p[i].id == id,
    decreases p.len(),
{
    if p.len() == 0 {
        0
    } else {
        assert(q[0] == (PathSnapshot { loss_rate: q[0].loss_rate, ..p[0] }));
        if p[0].id == id {
            0
        } else {
            let (a, b) = (p.drop_first(), q.drop_first());
            assert forall|i: int| 0 <= i < a.len() implies #[trigger] b[i] == (PathSnapshot {
                loss_rate: b[i].loss_rate,
                ..a[i]
            }) by {
                assert(q[i + 1] == b[i]);
            }
            lemma_same_found(a, b, id) + 1
        }
    }
}

/// Loss rates for which the same share of a weight is kept make the same plan.
proof fn lemma_same_plan(cfg: Config, a: Epoch, b: Epoch, gates: Seq<F64>)
    requires
        alike(a.paths, b.paths),
        b == (Epoch { paths: b.paths, ..a }),
        forall|i: int|
            0 <= i < a.paths.len() ==> loss_factor(cfg, (#[trigger] a.paths[i]).loss_rate.widened())
                == loss_factor(cfg, b.paths[i].loss_rate.widened()),
    ensures
        plan_for(cfg, b, gates) == plan_for(cfg, a, gates),
{
    lemma_same_ranked(cfg, a, b);
    let (s, t) = (ranked_candidates(cfg, a), ranked_candidates(cfg, b));
    let (x, y) = (raws_of(cfg, a, gates), raws_of(cfg, b, gates));
    assert(usable_of(cfg, a).len() > 0 ==> same_rank(usable_of(cfg, a)[0], usable_of(cfg, b)[0]));
    lemma_ranked_len(usable_of(cfg, a));
    lemma_ranked_len(usable_of(cfg, b));
    assert forall|i: int| 0 <= i < x.len() implies #[trigger] y[i] == x[i] by {
        assert(same_rank(s[i], t[i]) && same_rank(s[0], t[0]));
        let j = lemma_same_found(a.paths, b.paths, s[i].id);
        if find_path(a.paths, s[i].id) is Some {
            let (p, q) = (a.paths[j], b.paths[j]);
            assert(q == (PathSnapshot { loss_rate: q.loss_rate, ..p }));
            assert(loss_factor(cfg, p.loss_rate.widened()) == loss_factor(
                cfg,
                q.loss_rate.widened(),
            ));
        }
    }
    assert(y =~= x);
    if usable_of(cfg, a).len() >= 2 {
        assert(same_rank(s[0], t[0]) && same_rank(s[1], t[1]));
        let (v, w) = (
            smoothed_shares(cfg, s, x, a.prev_weights),
            smoothed_shares(cfg, t, y, b.prev_weights),
        );
        assert forall|i: int| 0 <= i < v.len() implies #[trigger] w[i] == v[i] by {
            assert(same_rank(s[i], t[i]));
        }
        assert(w =~= v);
        let (e, f) = (weights_for(cfg, a, gates), weights_for(cfg, b, gates));
        assert forall|i: int| 0 <= i < e.len() implies #[trigger] f[i] == e[i] by {
            assert(same_rank(s[i], t[i]));
        }
        assert(f =~= e);
        assert(redundancy_for(cfg, t, f) == redundancy_for(cfg, s, e));
    }
}

proof fn lemma_ranked_len(cs: Seq<Candidate>)
    ensures
        by_eta(cs).len() == cs.len(),
    decreases cs.len(),
{
    if cs.len() > 0 {
        lemma_ranked_len(cs.drop_last());
        lemma_inserted_len(by_eta(cs.drop_last()), cs.last());
    }
}

proof fn lemma_inserted_len(s: Seq<Candidate>, c: Candidate)
    ensures
        inserted(s, c).len() == s.len() + 1,
    decreases s.len(),
{
    if s.len() > 0 {
        lemma_inserted_len(s.drop_last(), c);
    }
}

/// One times a number is the number.
proof fn lemma_once(x: F64)
    requires
        x.plain(),
    ensures
        of_whole(1).prod(x) == x,
{
    lemma_double();
    lemma_zero_one();
    lemma_whole_exact(1);
    lemma_pow2_pos(1074);
    lemma_prod_pattern(of_whole(1), x);
    let (m, c) = (x.mag(), one());
    assert(2 * (c * m) == (2 * m) * c) by (nonlinear_arith);
    lemma_nearest_exact(double(), Exact::Ratio { p: c * m, q: c }, x.low());
}

/// From four fifths on, the loss of a path makes no more difference: plans for such losses are
/// the same.
pub proof fn law_heavy_losses_weigh_alike(
    cfg: Config,
    inp: Epoch,
    gates: Seq<F64>,
    k: int,
    l1: F32,
    l2: F32,
)
    requires
        cfg.loss_gamma == of_whole(1),
        0 <= k < inp.paths.len(),
        l1.widened().plain(),
        l2.widened().plain(),
        5 * l1.widened().value() >= 4 * one(),
        5 * l2.widened().value() >= 4 * one(),
    ensures
        plan_for(cfg, with_loss(inp, k, l2), gates) == plan_for(cfg, with_loss(inp, k, l1), gates),
{
    let (a, b) = (with_loss(inp, k, l1), with_loss(inp, k, l2));
    lemma_heavy_loss(cfg, l1.widened());
    lemma_heavy_loss(cfg, l2.widened());
    assert(alike(a.paths, b.paths));
    lemma_same_plan(cfg, a, b, gates);
}

/// From four fifths on, a fifth of the weight is kept.
proof fn lemma_heavy_loss(cfg: Config, loss: F64)
    requires
        cfg.loss_gamma == of_whole(1),
        loss.plain(),
        5 * loss.mag() >= 4 * one(),
    ensures
        loss_factor(cfg, loss) == fraction(1, 5),
{
    lemma_double();
    lemma_zero_one();
    lemma_whole_exact(1);
    lemma_once(loss);
    lemma2_to64_rest();
    lemma_fraction_digits(1, 5, 55, 0x19_9999_9999_999a);
    lemma_pow2_adds(55, 1019);
    lemma_fraction_at_most_one(1, 5);
    let fifth = fraction(1, 5);
    let r = of_whole(1).diff(loss);
    let n = loss.negated();
    assert(n.value() == -(loss.mag() as int));
    let s = one() - loss.mag();
    lemma_mag_order(r, fifth);
    lemma_mag_order(fifth, r);
    if s > 0 {
        lemma_units_at_most(s as nat, fifth.low());
        lemma_nearest(double(), Exact::Ratio { p: s as nat, q: 1 });
        lemma_order(r, fifth);
    } else if s < 0 {
        lemma_nearest(double(), Exact::Ratio { p: (-s) as nat, q: 1 });
        lemma_mag_order(fifth, signed(false, 0));
    } else {
        lemma_order(signed(false, 0), fifth);
    }
}

/// The factor for a queueing delay is a share, if it is a number.
proof fn lemma_queue_factor(cfg: Config, delay: F64)
    requires
        sound(cfg),
        delay.nonneg(),
    ensures
        queue_factor(cfg, delay).nan() || unit(queue_factor(cfg, delay)),
{
    lemma_zero_one();
    lemma_whole_exact(1);
    lemma_order(of_whole(1), of_whole(1));
    if delay.finite() {
        lemma_order(delay, delay);
        law_queue_factor_falls(cfg, delay, delay);
    } else {
        lemma_whole_exact(cfg.target_qdelay_ms as nat);
        lemma_order(signed(false, 0), of_whole(1));
    }
}

/// The bonus for room is a number, whatever the room is.
proof fn lemma_boost(cfg: Config, ratio: F64)
    requires
        sound(cfg),
    ensures
        headroom_boost(cfg, ratio).plain(),
{
    lemma_zero_one();
    lemma_whole_exact(1);
    let zero = signed(false, 0);
    let r = ratio.clamped(zero, of_whole(1));
    lemma_mag_order(ratio, zero);
    lemma_mag_order(zero, ratio);
    if !ratio.nan() {
        assert(r.value() >= 0);
        if r.negative() {
            lemma_mag_order(r, zero);
            lemma_double();
            lemma_pow2_pos(1074);
            let m = cfg.headroom_k.mag();
            assert(m * 0nat == 0 && 0 * one() == 0) by (nonlinear_arith);
            assert(2 * double().magnitude(0) == 0);
            lemma_nearest_exact(double(), Exact::Ratio { p: 0, q: one() }, 0);
            let x = of_whole(1).sum(cfg.headroom_k.prod(r));
            lemma_units_at_most(one(), of_whole(1).low());
            lemma_nearest(double(), Exact::Ratio { p: one(), q: 1 });
            lemma_order(x, cfg.headroom_cap);
            lemma_order(cfg.headroom_cap, x);
        } else {
            lemma_mag_order(r, of_whole(1));
            lemma_mag_order(of_whole(1), r);
            lemma_order(r, r);
            lemma_order(r, of_whole(1));
            lemma_order(of_whole(1), r);
            law_headroom_boost_grows(cfg, r, r);
        }
    }
}

/// A product of an infinite number with others is not finite.
proof fn lemma_infinite_product(bw: F64, l: F64, q: F64, o: F64, h: F64)
    requires
        bw.infinite() && !bw.negative(),
        unit(l) && unit(q) && unit(o) && h.plain(),
    ensures
        !raw_product(bw, l, q, o, h).finite(),
{
    lemma_fraction_at_most_one(1, 1_000_000_000);
    let d = bw.prod(l).prod(q).prod(o).prod(h);
    assert(d.nan() || (d.infinite() && !d.negative()));
    if !d.nan() {
        lemma_order(d, fraction(1, 1_000_000_000));
    }
}

/// More loss on a path never raises its raw weight.
proof fn lemma_raw_falls(
    cfg: Config,
    a: Seq<PathSnapshot>,
    b: Seq<PathSnapshot>,
    c: Candidate,
    fastest: Candidate,
    gate: F64,
)
    requires
        sound(cfg),
        unit(gate),
        find_path(a, c.id) is Some,
        find_path(b, c.id) is Some,
        ({
            let (p, q) = (find_path(a, c.id).unwrap(), find_path(b, c.id).unwrap());
            &&& q == (PathSnapshot { loss_rate: q.loss_rate, ..p })
            &&& p.loss_rate.widened().plain()
            &&& q.loss_rate.widened().plain()
            &&& p.loss_rate.widened().at_most(q.loss_rate.widened())
            &&& p.usable()
            &&& c.queue_delay_ms == p.queue_delay()
        }),
        raw_weight(cfg, a, c, fastest, gate).finite(),
    ensures
        raw_weight(cfg, b, c, fastest, gate).at_most(raw_weight(cfg, a, c, fastest, gate)),
{
    lemma_zero_one();
    let (p, q) = (find_path(a, c.id).unwrap(), find_path(b, c.id).unwrap());
    let bw = p.bw_est_bps.larger(of_whole(1));
    lemma_mag_order(p.bw_est_bps, of_whole(1));
    lemma_mag_order(of_whole(1), p.bw_est_bps);
    lemma_mag_order(p.bw_est_bps, signed(false, 0));
    lemma_time_nonneg(p.inflight_bytes as nat, p.bw_est_bps);
    lemma_queue_factor(cfg, c.queue_delay_ms);
    lemma_boost(cfg, headroom_ratio(bw, p));
    law_loss_factor_falls(cfg, p.loss_rate.widened(), q.loss_rate.widened());
    lemma_order(q.loss_rate.widened(), q.loss_rate.widened());
    law_loss_factor_falls(cfg, q.loss_rate.widened(), q.loss_rate.widened());
    let (l1, l2) = (
        loss_factor(cfg, p.loss_rate.widened()),
        loss_factor(cfg, q.loss_rate.widened()),
    );
    let qf = queue_factor(cfg, c.queue_delay_ms);
    let of = order_factor(cfg, c, fastest, gate);
    let hb = headroom_boost(cfg, headroom_ratio(bw, p));
    lemma_order(of_whole(1), of_whole(1));
    assert(unit(of));
    assert(raw_weight(cfg, a, c, fastest, gate) == raw_product(bw, l1, qf, of, hb));
    assert(raw_weight(cfg, b, c, fastest, gate) == raw_product(bw, l2, qf, of, hb));
    if qf.nan() {
        assert(bw.prod(l1).prod(qf).prod(of).prod(hb).nan());
        assert(false);
    }
    if bw.infinite() {
        lemma_infinite_product(bw, l1, qf, of, hb);
    }
    lemma_order(bw, bw);
    lemma_order(qf, qf);
    lemma_order(of, of);
    lemma_order(hb, hb);
    law_raw_weight_grows_with_its_factors(bw, l2, qf, of, hb, bw, l1, qf, of, hb);
}

/// Numbers that are set against their sum twice: each is its share of the exact sum, but for a
/// rounding error.
proof fn lemma_twice_shared(rs: Seq<F64>, j: int)
    requires
        all_plain(rs),
        total(rs).finite(),
        signed(false, 0).less(total(rs)),
        rs.len() <= 0x4_0000_0000_0000,
        0 <= j < rs.len(),
    ensures
        ({
            let xs = shares(rs, total(rs));
            let (w, r, x, c) = (
                shares(xs, total(xs))[j].value(),
                rs[j].value(),
                exact_sum(rs),
                one() as int,
            );
            let n = rs.len();
            &&& signed(false, 0).less(total(xs))
            &&& x > 0
            &&& 0x20_0000_0000_0000 * (w * x - r * c) <= ((11 * n + 9) * c) * x
            &&& 0x20_0000_0000_0000 * (r * c - w * x) <= ((11 * n + 9) * c) * x
        }),
{
    lemma_double();
    lemma_zero_one();
    lemma_one_is_large();
    let xs = shares(rs, total(rs));
    let whole = total(rs);
    lemma_shares_add_up(rs);
    lemma_total_error(rs);
    lemma_parts_at_most(rs, j);
    lemma_order(whole, whole);
    lemma_mag_order(whole, whole);
    assert(rs[j].plain());
    lemma_share_error(rs[j], whole);
    assert forall|i: int| 0 <= i < xs.len() implies (#[trigger] xs[i]).plain() && xs[i].mag() <= 2
        * one() by {
        assert(unit(xs[i]));
        lemma_order(xs[i], of_whole(1));
        lemma_mag_order(xs[i], of_whole(1));
    }
    assert(all_plain(xs));
    lemma_total_finite(xs);
    lemma_total_error(xs);
    let again = total(xs);
    let u = 0x20_0000_0000_0000int;
    let (n, c) = (rs.len() as int, one() as int);
    let (t, x) = (whole.mag() as int, exact_sum(rs));
    let (t2, x2) = (again.mag() as int, exact_sum(xs));
    assert(4 * x2 >= c && x2 <= 2 * c) by (nonlinear_arith)
        requires
            u * (x2 - c) <= (5 * n + 2) * c,
            u * (c - x2) <= (5 * n + 2) * c,
            u == 0x20_0000_0000_0000,
            0 <= n <= 0x4_0000_0000_0000,
            c >= 0,
    ;
    assert(t2 > 0) by (nonlinear_arith)
        requires
            u * (x2 - t2) <= 2 * n * x2,
            u == 0x20_0000_0000_0000,
            0 <= n <= 0x4_0000_0000_0000,
            x2 > 0,
    ;
    assert(x > 0 && t <= 2 * x) by (nonlinear_arith)
        requires
            u * (t - x) <= 2 * n * x,
            u == 0x20_0000_0000_0000,
            0 <= n <= 0x4_0000_0000_0000,
            x >= 0,
            t > 0,
    ;
    lemma_mag_order(again, again);
    lemma_order(again, again);
    lemma_parts_at_most(xs, j);
    lemma_share_error(xs[j], again);
    lemma_exact_part(rs, j);
    let (y, r) = (xs[j].mag() as int, rs[j].mag() as int);
    let w = xs[j].quot(again).mag() as int;
    assert(unit(xs[j]) && unit(xs[j].quot(again)));
    lemma_order(xs[j], of_whole(1));
    lemma_mag_order(xs[j], of_whole(1));
    lemma_order(xs[j].quot(again), of_whole(1));
    lemma_mag_order(xs[j].quot(again), of_whole(1));
    lemma_first_step(y, r, t, x, c, n);
    lemma_second_step(w, y, t2, x2, c, n);
    assert(u * (w * x - r * c) <= ((11 * n + 9) * c) * x && u * (r * c - w * x) <= ((11 * n + 9)
        * c) * x) by (nonlinear_arith)
        requires
            u * (y * x - r * c) <= ((2 * n + 3) * c) * x,
            u * (r * c - y * x) <= ((2 * n + 3) * c) * x,
            u * (w - y) <= (9 * n + 6) * c,
            u * (y - w) <= (9 * n + 6) * c,
            x > 0,
    {
        assert(u * (w * x - r * c) == (u * (w - y)) * x + u * (y * x - r * c));
        assert(u * (r * c - w * x) == (u * (y - w)) * x + u * (r * c - y * x));
        assert((u * (w - y)) * x <= ((9 * n + 6) * c) * x);
        assert((u * (y - w)) * x <= ((9 * n + 6) * c) * x);
    }
}

/// The error of a share of the exact sum.
proof fn lemma_first_step(y: int, r: int, t: int, x: int, c: int, n: int)
    requires
        0x20_0000_0000_0000 * (y * t - r * c) <= r * c + 0x10_0000_0000_0000 * t,
        0x20_0000_0000_0000 * (r * c - y * t) <= r * c + 0x10_0000_0000_0000 * t,
        0x20_0000_0000_0000 * (t - x) <= 2 * n * x,
        0x20_0000_0000_0000 * (x - t) <= 2 * n * x,
        0 <= y <= c,
        0 <= r <= x,
        0 <= t <= 2 * x,
        0 < x,
        0 <= n,
        c >= 0x10_0000_0000_0000,
    ensures
        0x20_0000_0000_0000 * (y * x - r * c) <= ((2 * n + 3) * c) * x,
        0x20_0000_0000_0000 * (r * c - y * x) <= ((2 * n + 3) * c) * x,
{
    let u = 0x20_0000_0000_0000int;
    let (yt, yx, rc) = (y * t, y * x, r * c);
    let e = 2 * n * x;
    assert(u * (yx - yt) <= e * c && u * (yt - yx) <= e * c) by (nonlinear_arith)
        requires
            yt == y * t,
            yx == y * x,
            u * (t - x) <= e,
            u * (x - t) <= e,
            0 <= y <= c,
            e >= 0,
    {
        assert((u * (x - t)) * y <= e * y);
        assert((u * (t - x)) * y <= e * y);
        assert(e * y <= e * c);
    }
    assert(e >= 0) by (nonlinear_arith)
        requires
            e == 2 * n * x,
            n >= 0,
            x >= 0,
    ;
    assert(rc <= c * x) by (nonlinear_arith)
        requires
            rc == r * c,
            0 <= r <= x,
            c >= 0,
    ;
    assert(0x10_0000_0000_0000 * t <= 2 * (c * x)) by (nonlinear_arith)
        requires
            0 <= t <= 2 * x,
            c >= 0x10_0000_0000_0000,
    ;
    assert(e * c + 3 * (c * x) == ((2 * n + 3) * c) * x) by (nonlinear_arith)
        requires
            e == 2 * n * x,
    ;
}

/// The error of setting shares against their sum once more.
proof fn lemma_second_step(w: int, y: int, t: int, x: int, c: int, n: int)
    requires
        0x20_0000_0000_0000 * (w * t - y * c) <= y * c + 0x10_0000_0000_0000 * t,
        0x20_0000_0000_0000 * (y * c - w * t) <= y * c + 0x10_0000_0000_0000 * t,
        0x20_0000_0000_0000 * (t - x) <= 2 * n * x,
        0x20_0000_0000_0000 * (x - t) <= 2 * n * x,
        0x20_0000_0000_0000 * (x - c) <= (5 * n + 2) * c,
        0x20_0000_0000_0000 * (c - x) <= (5 * n + 2) * c,
        0 <= w <= c,
        0 <= y <= c,
        0 < t,
        0 <= x <= 2 * c,
        0 <= n <= 0x4_0000_0000_0000,
        c >= 0x10_0000_0000_0000,
    ensures
        0x20_0000_0000_0000 * (w - y) <= (9 * n + 6) * c,
        0x20_0000_0000_0000 * (y - w) <= (9 * n + 6) * c,
{
    let u = 0x20_0000_0000_0000int;
    let e = (9 * n + 2) * c;
    assert(2 * n * x <= (4 * n) * c) by (nonlinear_arith)
        requires
            0 <= x <= 2 * c,
            n >= 0,
    ;
    assert((4 * n) * c + (5 * n + 2) * c == e) by (nonlinear_arith)
        requires
            e == (9 * n + 2) * c,
    ;
    assert(u * (t - c) <= e && u * (c - t) <= e);
    assert(t <= 3 * c) by (nonlinear_arith)
        requires
            u * (t - c) <= e,
            e == (9 * n + 2) * c,
            u == 0x20_0000_0000_0000,
            0 <= n <= 0x4_0000_0000_0000,
            c >= 0,
    ;
    let (wt, yc, wc) = (w * t, y * c, w * c);
    assert(e >= 0) by (nonlinear_arith)
        requires
            e == (9 * n + 2) * c,
            n >= 0,
            c >= 0,
    ;
    assert(u * (wc - wt) <= e * c && u * (wt - wc) <= e * c) by (nonlinear_arith)
        requires
            wt == w * t,
            wc == w * c,
            u * (t - c) <= e,
            u * (c - t) <= e,
            0 <= w <= c,
            e >= 0,
    {
        assert((u * (c - t)) * w <= e * w);
        assert((u * (t - c)) * w <= e * w);
        assert(e * w <= e * c);
    }
    assert(yc <= c * c) by (nonlinear_arith)
        requires
            yc == y * c,
            0 <= y <= c,
    ;
    assert(0x10_0000_0000_0000 * t <= 3 * (c * c)) by (nonlinear_arith)
        requires
            0 <= t <= 3 * c,
            c >= 0x10_0000_0000_0000,
    ;
    assert(e * c + 4 * (c * c) == ((9 * n + 6) * c) * c) by (nonlinear_arith)
        requires
            e == (9 * n + 2) * c,
    ;
    let k = (9 * n + 6) * c;
    assert(u * (w - y) <= k && u * (y - w) <= k) by (nonlinear_arith)
        requires
            u * (wc - yc) <= k * c,
            u * (yc - wc) <= k * c,
            wc == w * c,
            yc == y * c,
            c > 0,
    {
        assert(u * (wc - yc) == (u * (w - y)) * c);
        assert(u * (yc - wc) == (u * (y - w)) * c);
    }
}

/// No part is larger than the exact sum.
proof fn lemma_exact_part(rs: Seq<F64>, j: int)
    requires
        all_plain(rs),
        0 <= j < rs.len(),
    ensures
        0 <= rs[j].mag() <= exact_sum(rs),
    decreases rs.len(),
{
    let front = rs.drop_last();
    assert(all_plain(front));
    assert(rs[rs.len() - 1].plain());
    if j < front.len() {
        lemma_exact_part(front, j);
    } else {
        lemma_exact_nonneg(front);
    }
}

proof fn lemma_exact_nonneg(rs: Seq<F64>)
    requires
        all_plain(rs),
    ensures
        exact_sum(rs) >= 0,
    decreases rs.len(),
{
    if rs.len() > 0 {
        assert(all_plain(rs.drop_last()));
        assert(rs[rs.len() - 1].plain());
        lemma_exact_nonneg(rs.drop_last());
    }
}

/// Where one part falls, the exact sum falls by as much, and the rounded one does not grow.
proof fn lemma_part_falls(rs: Seq<F64>, ss: Seq<F64>, i: int)
    requires
        rs.len() == ss.len(),
        all_plain(rs),
        all_plain(ss),
        total(rs).finite(),
        0 <= i < rs.len(),
        ss[i].low() <= rs[i].low(),
        forall|j: int| 0 <= j < rs.len() && j != i ==> #[trigger] ss[j] == rs[j],
    ensures
        exact_sum(ss) == exact_sum(rs) - rs[i].mag() + ss[i].mag(),
        total(ss).plain(),
        total(rs).plain(),
        total(ss).low() <= total(rs).low(),
    decreases rs.len(),
{
    let (a, b) = (rs.drop_last(), ss.drop_last());
    let n = rs.len() - 1;
    assert(all_plain(a) && all_plain(b));
    assert(rs[n].plain() && ss[n].plain());
    lemma_parts_at_most(rs, i);
    assert(total(a).finite());
    if i == n {
        assert(a =~= b);
        if n > 0 {
            lemma_parts_at_most(a, 0);
        }
        lemma_order(rs[n], rs[n]);
        lemma_order(ss[n], ss[n]);
        lemma_sum_monotone(total(b), ss[n], total(a), rs[n]);
    } else {
        assert forall|j: int| 0 <= j < a.len() && j != i implies #[trigger] b[j] == a[j] by {
            assert(ss[j] == rs[j]);
        }
        lemma_part_falls(a, b, i);
        lemma_sum_monotone(total(b), ss[n], total(a), rs[n]);
    }
}

/// The path found by an identifier of its own.
proof fn lemma_found_at(paths: Seq<PathSnapshot>, j: int)
    requires
        0 <= j < paths.len(),
        forall|i: int| 0 <= i < j ==> (#[trigger] paths[i]).id != paths[j].id,
    ensures
        find_path(paths, paths[j].id) == Some(paths[j]),
    decreases paths.len(),
{
    if j > 0 {
        assert(paths[0].id != paths[j].id);
        let rest = paths.drop_first();
        assert forall|i: int| 0 <= i < j - 1 implies (#[trigger] rest[i]).id != rest[j - 1].id by {
            assert(paths[i + 1].id != paths[j].id);
        }
        lemma_found_at(rest, j - 1);
    }
}

/// The weights of an input without weights of the epoch before and without a least share.
proof fn lemma_plain_weights(cfg: Config, inp: Epoch, gates: Seq<F64>)
    requires
        !signed(false, 0).less(cfg.min_share),
        inp.prev_weights is None,
        all_plain(raws_of(cfg, inp, gates)),
        total(raws_of(cfg, inp, gates)).finite(),
        signed(false, 0).less(total(raws_of(cfg, inp, gates))),
        0 < raws_of(cfg, inp, gates).len() <= 0x4_0000_0000_0000,
    ensures
        ({
            let raws = raws_of(cfg, inp, gates);
            let xs = shares(raws, total(raws));
            let ws = weights_for(cfg, inp, gates);
            &&& ws.len() == raws.len()
            &&& forall|j: int|
                0 <= j < ws.len() ==> (#[trigger] ws[j]).weight == shares(xs, total(xs))[j]
        }),
{
    let raws = raws_of(cfg, inp, gates);
    let xs = shares(raws, total(raws));
    let ranked = ranked_candidates(cfg, inp);
    lemma_twice_shared(raws, 0);
    assert(smoothed_shares(cfg, ranked, raws, inp.prev_weights) =~= xs);
}

/// Two shares of sums, of which the first is no larger than the second.
proof fn lemma_compared(w: int, r: int, x: int, v: int, s: int, y: int, c: int, k: int)
    requires
        0x20_0000_0000_0000 * (w * x - r * c) <= (k * c) * x,
        0x20_0000_0000_0000 * (s * c - v * y) <= (k * c) * y,
        r * y <= s * x,
        x > 0,
        y > 0,
        c > 0,
    ensures
        0x20_0000_0000_0000 * (w - v) <= (2 * k) * c,
{
    let u = 0x20_0000_0000_0000int;
    let (kc, xy) = (k * c, x * y);
    assert((u * (w * x - r * c)) * y <= (kc * x) * y) by (nonlinear_arith)
        requires
            u * (w * x - r * c) <= kc * x,
            y > 0,
    ;
    assert((u * (s * c - v * y)) * x <= (kc * y) * x) by (nonlinear_arith)
        requires
            u * (s * c - v * y) <= kc * y,
            x > 0,
    ;
    assert((r * y) * c <= (s * x) * c) by (nonlinear_arith)
        requires
            r * y <= s * x,
            c > 0,
    ;
    let (wx, rc, sc, vy) = (w * x, r * c, s * c, v * y);
    assert((u * (wx - rc)) * y == u * (wx * y) - u * (rc * y)) by (nonlinear_arith);
    assert((u * (sc - vy)) * x == u * (sc * x) - u * (vy * x)) by (nonlinear_arith);
    assert(wx * y == w * xy && vy * x == v * xy) by (nonlinear_arith)
        requires
            wx == w * x,
            vy == v * y,
            xy == x * y,
    ;
    assert(rc * y == (r * y) * c && sc * x == (s * x) * c) by (nonlinear_arith)
        requires
            rc == r * c,
            sc == s * c,
    ;
    assert((kc * x) * y == kc * xy && (kc * y) * x == kc * xy) by (nonlinear_arith)
        requires
            xy == x * y,
    ;
    assert(u * (w - v) <= 2 * kc) by (nonlinear_arith)
        requires
            u * (w * xy) - u * (v * xy) <= kc * xy + kc * xy,
            xy == x * y,
            x > 0,
            y > 0,
    {
        assert(xy > 0);
        assert((u * (w - v)) * xy <= (2 * kc) * xy);
    }
    assert(2 * kc == (2 * k) * c) by (nonlinear_arith)
        requires
            kc == k * c,
    ;
}

/// The place of a usable path in the order of arrival.
proof fn lemma_place(cfg: Config, inp: Epoch, k: int) -> (i: int)
    requires
        inp.paths.len() <= usize::MAX,
        0 <= k < inp.paths.len(),
        inp.paths[k].usable(),
    ensures
        0 <= i < ranked_candidates(cfg, inp).len(),
        ranked_candidates(cfg, inp)[i].slot == k,
{
    lemma_ranked(cfg, inp);
    let ranked = ranked_candidates(cfg, inp);
    let c = candidate(cfg, inp.now_ms, inp.packet_len_hint, inp.paths[k], k as usize);
    assert(ranked.contains(c));
    choose|i: int| 0 <= i < ranked.len() && ranked[i] == c
}

/// The raw weights of alike inputs: more loss on a path never raises its own, and leaves those
/// of the others.
proof fn lemma_raw_at(
    cfg: Config,
    inp: Epoch,
    gates: Seq<F64>,
    k: int,
    l1: F32,
    l2: F32,
    j: int,
)
    requires
        inp.paths.len() <= usize::MAX,
        forall|i: int, j: int|
            0 <= i < j < inp.paths.len() ==> (#[trigger] inp.paths[i]).id != (
            #[trigger] inp.paths[j]).id,
        0 <= k < inp.paths.len(),
        l1.widened().plain(),
        l2.widened().plain(),
        l1.widened().at_most(l2.widened()),
        sound(cfg),
        gates.len() == inp.paths.len(),
        forall|i: int| 0 <= i < gates.len() ==> unit(#[trigger] gates[i]),
        0 <= j < raws_of(cfg, with_loss(inp, k, l1), gates).len(),
        raws_of(cfg, with_loss(inp, k, l1), gates)[j].finite(),
    ensures
        ({
            let (a, b) = (with_loss(inp, k, l1), with_loss(inp, k, l2));
            let (x, y) = (raws_of(cfg, a, gates)[j], raws_of(cfg, b, gates)[j]);
            if ranked_candidates(cfg, a)[j].slot == k {
                y.at_most(x)
            } else {
                y == x
            }
        }),
{
    let (a, b) = (with_loss(inp, k, l1), with_loss(inp, k, l2));
    assert(alike(a.paths, b.paths));
    lemma_same_ranked(cfg, a, b);
    lemma_ranked(cfg, a);
    let (s, t) = (ranked_candidates(cfg, a), ranked_candidates(cfg, b));
    assert(same_rank(s[j], t[j]) && same_rank(s[0], t[0]));
    let c = s[j];
    let slot = c.slot as int;
    assert(a.paths[slot].usable());
    assert forall|i: int| 0 <= i < slot implies (#[trigger] a.paths[i]).id != a.paths[slot].id by {
        assert(inp.paths[i].id != inp.paths[slot].id);
    }
    assert forall|i: int| 0 <= i < slot implies (#[trigger] b.paths[i]).id != b.paths[slot].id by {
        assert(inp.paths[i].id != inp.paths[slot].id);
    }
    lemma_found_at(a.paths, slot);
    lemma_found_at(b.paths, slot);
    let gate = gates[slot];
    assert(raw_weight(cfg, b.paths, t[j], t[0], gate) == raw_weight(cfg, b.paths, c, s[0], gate));
    if slot == k {
        lemma_raw_falls(cfg, a.paths, b.paths, c, s[0], gate);
    }
}

/// A weight has not grown, but for a rounding error in a plan of `n` weights: less than
/// `22 * n + 18` parts in 2^53, which is less than a billionth for up to 400000 weights.
pub open spec fn no_larger(n: nat, after: F64, before: F64) -> bool {
    &&& 0x20_0000_0000_0000 * (after.value() - before.value()) <= (22 * n + 18) * one()
    &&& n <= 400_000 ==> 1_000_000_000 * (after.value() - before.value()) <= one()
}

proof fn lemma_no_larger(n: nat, after: F64, before: F64)
    requires
        0x20_0000_0000_0000 * (after.value() - before.value()) <= (22 * n + 18) * one(),
    ensures
        no_larger(n, after, before),
{
    let (d, c) = (after.value() - before.value(), one() as int);
    if n <= 400_000 {
        assert(1_000_000_000 * d <= c) by (nonlinear_arith)
            requires
                0x20_0000_0000_0000 * d <= (22 * n + 18) * c,
                n <= 400_000,
                c >= 0,
        {
            assert((22 * n + 18) * c <= 8_800_018 * c);
        }
    }
}

/// Each number as its share of their sum, set against the sum of these shares.
spec fn twice_shared(rs: Seq<F64>) -> Seq<F64> {
    shares(shares(rs, total(rs)), total(shares(rs, total(rs))))
}

/// Where one number falls, its share does not grow, and no other share falls.
proof fn lemma_share_moves(x: Seq<F64>, y: Seq<F64>, i: int, j: int)
    requires
        x.len() == y.len(),
        all_plain(x),
        all_plain(y),
        total(x).finite(),
        signed(false, 0).less(total(x)),
        signed(false, 0).less(total(y)),
        x.len() <= 0x4_0000_0000_0000,
        0 <= i < x.len(),
        0 <= j < x.len(),
        y[i].low() <= x[i].low(),
        forall|h: int| 0 <= h < x.len() && h != i ==> #[trigger] y[h] == x[h],
    ensures
        j == i ==> no_larger(x.len(), twice_shared(y)[j], twice_shared(x)[j]),
        j != i ==> no_larger(x.len(), twice_shared(x)[j], twice_shared(y)[j]),
{
    lemma_part_falls(x, y, i);
    lemma_twice_shared(x, j);
    lemma_twice_shared(y, j);
    lemma_exact_part(x, j);
    lemma_exact_part(y, j);
    lemma_pow2_pos(1074);
    lemma_mag_order(y[i], x[i]);
    lemma_mag_order(x[i], y[i]);
    assert(x[j].plain() && y[j].plain() && x[i].plain() && y[i].plain());
    let (c, e) = (one() as int, 11 * x.len() as int + 9);
    let (p, q) = (exact_sum(x), exact_sum(y));
    let (f, g) = (twice_shared(x)[j].value(), twice_shared(y)[j].value());
    let (r, o) = (x[j].value(), y[j].value());
    if j == i {
        assert(o * p <= r * q) by (nonlinear_arith)
            requires
                q == p - r + o,
                0 <= o <= r,
                o <= q,
        ;
        lemma_compared(g, o, q, f, r, p, c, e);
        lemma_no_larger(x.len(), twice_shared(y)[j], twice_shared(x)[j]);
    } else {
        assert(r * q <= o * p) by (nonlinear_arith)
            requires
                r == o,
                q <= p,
                r >= 0,
        ;
        lemma_compared(f, r, p, g, o, q, c, e);
        lemma_no_larger(x.len(), twice_shared(x)[j], twice_shared(y)[j]);
    }
}

/// The parameters that a scheduler has unless others are set are numbers of the kind they stand
/// for, without a least share.
pub proof fn law_default_parameters_are_sound()
    ensures
        sound(default_config()),
        !signed(false, 0).less(default_config().min_share),
{
    lemma_whole_exact(1);
    lemma_fraction_at_most_one(3, 5);
    lemma_fraction_at_most_one(1, 2);
    lemma2_to64_rest();
    lemma_fraction_digits(3, 2, 52, 0x18_0000_0000_0000);
}

/// More loss on one path takes weight from it and gives it to the others: its weight does not
/// grow and no other falls, but for rounding, and the order of the paths stays. The law is about
/// plans that are spread over all usable paths by the present input alone, with parameters and
/// gates that are numbers of the kind they stand for. It leaves out inputs whose raw weights
/// overflow.
pub proof fn law_loss_takes_weight_away(
    cfg: Config,
    inp: Epoch,
    gates: Seq<F64>,
    k: int,
    l1: F32,
    l2: F32,
)
    requires
        inp.paths.len() <= 0x4_0000_0000_0000,
        inp.paths.len() <= usize::MAX,
        forall|i: int, j: int|
            0 <= i < j < inp.paths.len() ==> (#[trigger] inp.paths[i]).id != (
            #[trigger] inp.paths[j]).id,
        0 <= k < inp.paths.len(),
        inp.paths[k].usable(),
        l1.widened().plain(),
        l2.widened().plain(),
        l1.widened().at_most(l2.widened()),
        sound(cfg),
        !signed(false, 0).less(cfg.min_share),
        inp.prev_weights is None,
        gates.len() == inp.paths.len(),
        forall|i: int| 0 <= i < gates.len() ==> unit(#[trigger] gates[i]),
        total(raws_of(cfg, with_loss(inp, k, l1), gates)).finite(),
        signed(false, 0).less(total(raws_of(cfg, with_loss(inp, k, l2), gates))),
    ensures
        ({
            let (before, after) = (
                plan_for(cfg, with_loss(inp, k, l1), gates),
                plan_for(cfg, with_loss(inp, k, l2), gates),
            );
            let (v, w) = (before.unwrap().weights, after.unwrap().weights);
            let n = v.len();
            &&& before is Some
            &&& after is Some
            &&& n == usable_of(cfg, with_loss(inp, k, l1)).len()
            &&& w.len() == n
            &&& forall|j: int|
                0 <= j < n ==> (#[trigger] w[j]).id == v[j].id && if v[j].id == inp.paths[k].id {
                    no_larger(n, w[j].weight, v[j].weight)
                } else {
                    no_larger(n, v[j].weight, w[j].weight)
                }
        }),
{
    let (a, b) = (with_loss(inp, k, l1), with_loss(inp, k, l2));
    assert(alike(a.paths, b.paths));
    lemma_same_ranked(cfg, a, b);
    lemma_ranked(cfg, a);
    lemma_ranked(cfg, b);
    let (s, t) = (ranked_candidates(cfg, a), ranked_candidates(cfg, b));
    let (x, y) = (raws_of(cfg, a, gates), raws_of(cfg, b, gates));
    let n = s.len();
    assert(a.paths[k].usable());
    let i = lemma_place(cfg, a, k);
    assert(usable_of(cfg, a).len() == n && usable_of(cfg, b).len() == n);
    if n == 1 {
        assert(same_rank(usable_of(cfg, a)[0], usable_of(cfg, b)[0]));
        assert(0 <= (22 * n + 18) * one()) by (nonlinear_arith)
            requires
                n == 1,
        ;
    } else {
        law_candidates_are_the_usable_paths(cfg, a.now_ms, a.packet_len_hint, a.paths);
        lemma_raws_plain(cfg, a, gates);
        assert forall|j: int| 0 <= j < n implies if j == i {
            (#[trigger] y[j]).at_most(x[j])
        } else {
            y[j] == x[j]
        } by {
            assert(x[j].plain());
            if j != i {
                lemma_places_differ(cfg, a, i, j);
            }
            lemma_raw_at(cfg, inp, gates, k, l1, l2, j);
        }
        assert(x[i].plain() && y[i].at_most(x[i]));
        lemma_raw_nonneg(cfg, b, gates, i);
        lemma_order(y[i], x[i]);
        assert forall|j: int| 0 <= j < n implies (#[trigger] y[j]).plain() by {
            assert(x[j].plain());
            assert(j != i ==> y[j] == x[j]);
        }
        lemma_part_falls(x, y, i);
        lemma_order(total(x), total(x));
        lemma_order(total(y), total(y));
        lemma_plain_weights(cfg, a, gates);
        lemma_plain_weights(cfg, b, gates);
        let (v, w) = (weights_for(cfg, a, gates), weights_for(cfg, b, gates));
        assert forall|j: int| 0 <= j < n implies (#[trigger] w[j]).id == v[j].id && if v[j].id
            == inp.paths[k].id {
            no_larger(n, w[j].weight, v[j].weight)
        } else {
            no_larger(n, v[j].weight, w[j].weight)
        } by {
            assert(same_rank(s[j], t[j]));
            lemma_share_moves(x, y, i, j);
            assert(v[j].weight == twice_shared(x)[j]);
            assert(w[j].weight == twice_shared(y)[j]);
            if j != i {
                lemma_places_differ(cfg, a, i, j);
                let slot = s[j].slot as int;
                if slot < k {
                    assert(inp.paths[slot].id != inp.paths[k].id);
                } else {
                    assert(inp.paths[k].id != inp.paths[slot].id);
                }
            }
        }
    }
}

} // verus!
