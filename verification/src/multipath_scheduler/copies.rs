//! When packets are sent twice, and over which paths.
use vstd::arithmetic::power2::{
    lemma2_to64, lemma2_to64_rest, lemma_pow2_adds, lemma_pow2_pos, pow2,
};
use vstd::prelude::*;

use crate::multipath_scheduler::candidate::{candidate, Candidate};
use crate::multipath_scheduler::laws::{lemma_places_differ, lemma_ranked};
use crate::multipath_scheduler::pick::{heaviest, pick_for};
use crate::multipath_scheduler::plan::{
    find_weight, plan_for, ranked_candidates, reorder_budget, usable_of, weight_or_zero,
    weights_for,
};
use crate::multipath_scheduler::{Config, Epoch, PathId, PathWeight, PickInput, RedundancyMode};
use crate::num::bounds::{lemma_order, lemma_prod_pattern, lemma_quot_pattern};
use crate::num::double::{fraction, lemma_double, lemma_mag_order, of_whole, F64};
use crate::num::exact::{lemma_whole_exact, one};
use crate::num::facts::{lemma_fraction_at_most_one, lemma_nearest_exact, lemma_zero_one};
use crate::num::format::{double, lemma_magnitude_of_digits, lemma_nearest_at_most, Exact};

verus! {

/// A fourth of a magnitude has a pattern of its own, two exponents below.
proof fn lemma_fourth(b: nat)
    requires
        b >= 3 * 0x10_0000_0000_0000,
    ensures
        double().magnitude(b) == 4 * double().magnitude((b - 2 * 0x10_0000_0000_0000) as nat),
{
    let h = 0x10_0000_0000_0000nat;
    let (e, t) = (b / h, b % h);
    let a = (b - 2 * h) as nat;
    assert(a / h == e - 2 && a % h == t);
    lemma_pow2_adds(2, (e - 3) as nat);
    lemma2_to64();
    assert((h + t) * (4 * pow2((e - 3) as nat)) == 4 * ((h + t) * pow2((e - 3) as nat)))
        by (nonlinear_arith);
}

/// The number a quarter, and numbers multiplied with it.
proof fn lemma_quarter_of(x: F64)
    requires
        x.plain(),
        x.mag() >= one(),
    ensures
        fraction(1, 4).prod(x).plain(),
        4 * fraction(1, 4).prod(x).mag() == x.mag(),
{
    lemma_double();
    lemma_zero_one();
    lemma_pow2_pos(1074);
    lemma_pow2_pos(1072);
    lemma_whole_exact(1);
    lemma_whole_exact(4);
    lemma_pow2_adds(2, 1072);
    lemma_pow2_adds(52, 1020);
    lemma2_to64();
    lemma2_to64_rest();
    let c = one();
    let f = pow2(1072);
    let quarter = fraction(1, 4);
    lemma_quot_pattern(of_whole(1), of_whole(4));
    lemma_magnitude_of_digits(double(), 1020, 0x10_0000_0000_0000);
    let b = (1020 * 0x10_0000_0000_0000 + 0x10_0000_0000_0000) as nat;
    assert(2 * (c * c) == (2 * f) * (4 * c)) by (nonlinear_arith)
        requires
            c == 4 * f,
    ;
    assert(1nat * c == c);
    lemma_nearest_exact(double(), Exact::Ratio { p: c * c, q: 4 * c }, b);
    assert(quarter.mag() == f);
    lemma_prod_pattern(quarter, x);
    lemma_mag_order(of_whole(1), x);
    lemma_mag_order(x, of_whole(1));
    lemma_fourth(x.low());
    let y = (x.low() - 2 * 0x10_0000_0000_0000) as nat;
    let m = double().magnitude(y);
    assert(2 * (f * x.mag()) == (2 * m) * c) by (nonlinear_arith)
        requires
            x.mag() == 4 * m,
            c == 4 * f,
    ;
    lemma_nearest_exact(double(), Exact::Ratio { p: f * x.mag(), q: c }, y);
}

/// The time that other paths may be behind the fastest, in units: a quarter of its round trip,
/// but at least four milliseconds and at most the configured cap.
pub open spec fn allowed_lag(cfg: Config, srtt_ms: F64) -> int {
    if srtt_ms.value() <= 16 * one() {
        4 * one() as int
    } else if srtt_ms.value() >= 4 * cfg.blest_delta_cap_ms * one() {
        cfg.blest_delta_cap_ms * one()
    } else {
        srtt_ms.value() / 4
    }
}

/// The reordering budget is exactly the time that other paths may be behind.
pub proof fn law_budget_is_the_allowed_lag(cfg: Config, fastest: Candidate)
    requires
        cfg.blest_delta_cap_ms >= 4,
        fastest.srtt_ms.widened().plain(),
    ensures
        reorder_budget(cfg, fastest).plain(),
        reorder_budget(cfg, fastest).value() == allowed_lag(cfg, fastest.srtt_ms.widened()),
{
    let s = fastest.srtt_ms.widened();
    let cap = cfg.blest_delta_cap_ms as nat;
    let c = one();
    lemma_double();
    lemma_zero_one();
    lemma_pow2_pos(1074);
    lemma_whole_exact(1);
    lemma_whole_exact(4);
    lemma_whole_exact(cap);
    lemma_order(s, s);
    assert(4 * cfg.blest_delta_cap_ms * one() == 4 * (cap * c)) by (nonlinear_arith)
        requires
            cap == cfg.blest_delta_cap_ms,
            c == one(),
    ;
    assert(4 * c <= cap * c) by (nonlinear_arith)
        requires
            cap >= 4,
    ;
    if s.mag() >= c {
        lemma_quarter_of(s);
    } else {
        // less than a millisecond: the quarter is below the least budget
        lemma_small_quarter(s);
    }
    let q = fraction(1, 4).prod(s);
    lemma_order(q, of_whole(4));
    lemma_order(of_whole(cap), q);
    lemma_mag_order(q, of_whole(4));
    lemma_mag_order(of_whole(4), q);
    lemma_mag_order(q, of_whole(cap));
    lemma_mag_order(of_whole(cap), q);
}

proof fn lemma_small_quarter(x: F64)
    requires
        x.plain(),
        x.mag() < one(),
    ensures
        fraction(1, 4).prod(x).plain(),
        fraction(1, 4).prod(x).mag() <= one(),
{
    lemma_double();
    lemma_zero_one();
    lemma_pow2_pos(1074);
    lemma_whole_exact(1);
    lemma_fraction_at_most_one(1, 4);
    let q = fraction(1, 4);
    lemma_order(q, of_whole(1));
    lemma_mag_order(q, of_whole(1));
    lemma_prod_pattern(q, x);
    let (m, n, c) = (q.mag(), x.mag(), one());
    assert(2 * (m * n) <= (2 * c) * c) by (nonlinear_arith)
        requires
            m <= c,
            n <= c,
    ;
    lemma_nearest_at_most(
        double(),
        Exact::Ratio { p: m * n, q: c },
        of_whole(1).low(),
    );
    lemma_mag_order(q.prod(x), of_whole(1));
}

/// The path at the place `a` arrives before the one at `b`; of two that arrive together, the
/// first in the input.
pub open spec fn arrives_before(inp: Epoch, a: int, b: int) -> bool {
    let (x, y) = (
        inp.paths[a].eta(inp.now_ms, inp.packet_len_hint),
        inp.paths[b].eta(inp.now_ms, inp.packet_len_hint),
    );
    x.rank() < y.rank() || (x.rank() == y.rank() && a < b)
}

/// The usable paths at `a` and `b` arrive first and second of all.
pub open spec fn arrive_first(inp: Epoch, a: int, b: int) -> bool {
    &&& 0 <= a < inp.paths.len()
    &&& 0 <= b < inp.paths.len()
    &&& a != b
    &&& inp.paths[a].usable()
    &&& inp.paths[b].usable()
    &&& arrives_before(inp, a, b)
    &&& forall|k: int|
        0 <= k < inp.paths.len() && (#[trigger] inp.paths[k]).usable() && k != a && k != b
            ==> arrives_before(inp, b, k)
}

/// The first two in the order of arrival.
proof fn lemma_first_two(cfg: Config, inp: Epoch, a: int, b: int)
    requires
        inp.paths.len() <= usize::MAX,
        arrive_first(inp, a, b),
    ensures
        usable_of(cfg, inp).len() >= 2,
        ranked_candidates(cfg, inp).len() == usable_of(cfg, inp).len(),
        ranked_candidates(cfg, inp)[0] == candidate(
            cfg,
            inp.now_ms,
            inp.packet_len_hint,
            inp.paths[a],
            a as usize,
        ),
        ranked_candidates(cfg, inp)[1] == candidate(
            cfg,
            inp.now_ms,
            inp.packet_len_hint,
            inp.paths[b],
            b as usize,
        ),
{
    lemma_ranked(cfg, inp);
    let ranked = ranked_candidates(cfg, inp);
    let c = candidate(cfg, inp.now_ms, inp.packet_len_hint, inp.paths[a], a as usize);
    let d = candidate(cfg, inp.now_ms, inp.packet_len_hint, inp.paths[b], b as usize);
    assert(ranked.contains(c) && ranked.contains(d));
    let i = choose|i: int| 0 <= i < ranked.len() && ranked[i] == c;
    let j = choose|j: int| 0 <= j < ranked.len() && ranked[j] == d;
    assert(c.slot != d.slot);
    assert(i != j);
    assert(inp.paths[ranked[0].slot as int].usable());
    if i != 0 {
        let z = ranked[0];
        lemma_places_differ(cfg, inp, 0, i);
        assert(z.eta_ms.rank() <= c.eta_ms.rank());
        let k = z.slot as int;
        if k != b {
            assert(arrives_before(inp, b, k));
        }
        assert(false);
    }
    assert(inp.paths[ranked[1].slot as int].usable());
    if j != 1 {
        let z = ranked[1];
        lemma_places_differ(cfg, inp, 0, 1);
        lemma_places_differ(cfg, inp, 1, j);
        let k = z.slot as int;
        assert(arrives_before(inp, b, k));
        assert(z.eta_ms.rank() <= d.eta_ms.rank());
        assert(false);
    }
}

/// Where the load is spread, packets are sent twice over the two paths that arrive first if and
/// only if this is switched on, the second is behind by more than the allowed lag, and both have
/// at least the weight that it asks for. There is one copy more of each packet, and the budget
/// is the configured one.
pub proof fn law_two_fastest_paths_carry_second_copies(
    cfg: Config,
    inp: Epoch,
    gates: Seq<F64>,
    a: int,
    b: int,
)
    requires
        inp.paths.len() <= usize::MAX,
        arrive_first(inp, a, b),
        inp.paths[a].id != inp.paths[b].id,
        inp.paths[a].srtt_ms.widened().plain(),
        cfg.blest_delta_cap_ms >= 4,
        plan_for(cfg, inp, gates) is Some,
        plan_for(cfg, inp, gates).unwrap().weights.len() >= 2,
    ensures
        ({
            let plan = plan_for(cfg, inp, gates).unwrap();
            let lag = inp.paths[b].eta(inp.now_ms, inp.packet_len_hint).diff(
                inp.paths[a].eta(inp.now_ms, inp.packet_len_hint),
            );
            let least = cfg.redundancy_min_weight;
            &&& plan.weights[0].id == inp.paths[a].id
            &&& plan.weights[1].id == inp.paths[b].id
            &&& plan.redundancy == if cfg.enable_redundancy && !lag.nan() && lag.value()
                > allowed_lag(cfg, inp.paths[a].srtt_ms.widened()) && least.at_most(
                plan.weights[0].weight,
            ) && least.at_most(plan.weights[1].weight) {
                RedundancyMode::ShortIdleCritical {
                    duplicate_first_n: 1,
                    pair: (inp.paths[a].id, inp.paths[b].id),
                    budget_pkts: cfg.redundancy_epoch_budget_pkts,
                }
            } else {
                RedundancyMode::Off
            }
        }),
{
    lemma_first_two(cfg, inp, a, b);
    let plan = plan_for(cfg, inp, gates).unwrap();
    let ranked = ranked_candidates(cfg, inp);
    let ws = plan.weights;
    assert(ws == weights_for(cfg, inp, gates));
    assert(ws[0].id == ranked[0].id && ws[1].id == ranked[1].id);
    law_budget_is_the_allowed_lag(cfg, ranked[0]);
    assert(find_weight(ws, ws[0].id) == Some(ws[0].weight));
    assert(ws.drop_first()[0] == ws[1]);
    assert(find_weight(ws.drop_first(), ws[1].id) == Some(ws[1].weight));
    assert(find_weight(ws, ws[1].id) == Some(ws[1].weight));
}

/// The place `i` holds the first weight with the given identifier.
pub open spec fn first_weight(weights: Seq<PathWeight>, id: PathId, i: int) -> bool {
    &&& 0 <= i < weights.len()
    &&& weights[i].id == id
    &&& forall|j: int| 0 <= j < i ==> (#[trigger] weights[j]).id != id
}

pub proof fn lemma_first_weight(weights: Seq<PathWeight>, id: PathId, i: int)
    requires
        first_weight(weights, id, i),
    ensures
        weight_or_zero(weights, id) == weights[i].weight,
        find_weight(weights, id) == Some(weights[i].weight),
    decreases i,
{
    if i > 0 {
        assert(weights[0].id != id);
        let rest = weights.drop_first();
        assert forall|j: int| 0 <= j < i - 1 implies (#[trigger] rest[j]).id != id by {
            assert(weights[j + 1].id != id);
        }
        lemma_first_weight(rest, id, i - 1);
    }
}

/// The pair of paths that a plan sends packets twice over.
pub open spec fn named_pair(mode: RedundancyMode, a: PathId, b: PathId) -> bool {
    ||| mode matches RedundancyMode::ShortIdleCritical { pair, .. } && pair == (a, b)
    ||| mode matches RedundancyMode::Percentage { pair, .. } && pair == (a, b)
}

/// The plan that one packet is sent under: that of an epoch of 200 milliseconds without
/// weights of the one before.
pub open spec fn packet_epoch(inp: PickInput) -> Epoch {
    Epoch {
        now_ms: inp.now_ms as nat,
        epoch_ms: 200,
        packet_len_hint: inp.packet_len as nat,
        paths: inp.paths@,
        prev_weights: None,
    }
}

/// The packet belongs to a short flow, some path was idle for long enough, or the packet is
/// critical.
pub open spec fn deserves_a_copy(cfg: Config, inp: PickInput) -> bool {
    ||| inp.flow_bytes_sent <= cfg.short_flow_thresh
    ||| inp.critical
    ||| exists|i: int|
        0 <= i < inp.paths@.len() && (#[trigger] inp.paths@[i]).last_tx_age_ms
            >= cfg.idle_burst_ms
}

/// A packet that deserves it is sent twice whenever the plan names a pair of two paths: the
/// second copy goes over the other one of the pair, or, where the first copy goes over neither,
/// over one whose weight is not below that of the other. No other packet is sent twice, and
/// none under a plan that names no pair.
pub proof fn law_second_copies_are_decided(
    cfg: Config,
    inp: PickInput,
    gates: Seq<F64>,
    a: PathId,
    b: PathId,
)
    requires
        plan_for(cfg, packet_epoch(inp), gates) is Some,
        plan_for(cfg, packet_epoch(inp), gates).unwrap().weights.len() > 0,
        a != b,
    ensures
        ({
            let plan = plan_for(cfg, packet_epoch(inp), gates).unwrap();
            let d = pick_for(cfg, inp, gates).unwrap();
            &&& pick_for(cfg, inp, gates) is Some
            &&& !deserves_a_copy(cfg, inp) ==> d.redundant is None
            &&& plan.redundancy is Off ==> d.redundant is None
            &&& named_pair(plan.redundancy, a, b) && deserves_a_copy(cfg, inp) ==> {
                &&& d.redundant == Some(a) || d.redundant == Some(b)
                &&& d.primary == a ==> d.redundant == Some(b)
                &&& d.primary == b ==> d.redundant == Some(a)
                &&& d.primary != a && d.primary != b ==> forall|i: int, j: int|
                    #![trigger first_weight(plan.weights, a, i), first_weight(plan.weights, b, j)]
                    first_weight(plan.weights, a, i) && first_weight(plan.weights, b, j) ==> {
                        &&& d.redundant == Some(a) ==> !plan.weights[i].weight.less(
                            plan.weights[j].weight,
                        )
                        &&& d.redundant == Some(b) ==> !plan.weights[j].weight.less(
                            plan.weights[i].weight,
                        )
                    }
            }
        }),
{
    let plan = plan_for(cfg, packet_epoch(inp), gates).unwrap();
    let d = pick_for(cfg, inp, gates).unwrap();
    assert forall|i: int, j: int|
        #![trigger first_weight(plan.weights, a, i), first_weight(plan.weights, b, j)]
        first_weight(plan.weights, a, i) && first_weight(plan.weights, b, j) implies weight_or_zero(
        plan.weights,
        a,
    ) == plan.weights[i].weight && weight_or_zero(plan.weights, b) == plan.weights[j].weight by {
        lemma_first_weight(plan.weights, a, i);
        lemma_first_weight(plan.weights, b, j);
    }
}

/// The first copy of a packet goes over a path with the most weight, the last of several in the
/// plan.
pub proof fn law_first_copies_go_over_the_heaviest(cfg: Config, inp: PickInput, gates: Seq<F64>) -> (i:
    int)
    requires
        plan_for(cfg, packet_epoch(inp), gates) is Some,
        plan_for(cfg, packet_epoch(inp), gates).unwrap().weights.len() > 0,
        forall|j: int|
            0 <= j < plan_for(cfg, packet_epoch(inp), gates).unwrap().weights.len()
                ==> !(#[trigger] plan_for(cfg, packet_epoch(inp), gates).unwrap().weights[j]).weight.nan(),
    ensures
        ({
            let ws = plan_for(cfg, packet_epoch(inp), gates).unwrap().weights;
            &&& 0 <= i < ws.len()
            &&& pick_for(cfg, inp, gates).unwrap().primary == ws[i].id
            &&& forall|j: int|
                0 <= j < ws.len() ==> (#[trigger] ws[j]).weight.at_most(ws[i].weight) && (j > i
                    ==> ws[j].weight.less(ws[i].weight))
        }),
{
    lemma_heaviest_place(plan_for(cfg, packet_epoch(inp), gates).unwrap().weights)
}

proof fn lemma_heaviest_place(ws: Seq<PathWeight>) -> (i: int)
    requires
        ws.len() > 0,
        forall|j: int| 0 <= j < ws.len() ==> !(#[trigger] ws[j]).weight.nan(),
    ensures
        0 <= i < ws.len(),
        heaviest(ws) == ws[i],
        forall|j: int|
            0 <= j < ws.len() ==> (#[trigger] ws[j]).weight.at_most(ws[i].weight) && (j > i
                ==> ws[j].weight.less(ws[i].weight)),
    decreases ws.len(),
{
    assert(!ws[ws.len() - 1].weight.nan());
    if ws.len() == 1 {
        0
    } else {
        let front = ws.drop_last();
        assert forall|j: int| 0 <= j < front.len() implies !(#[trigger] front[j]).weight.nan() by {
            assert(!ws[j].weight.nan());
        }
        let k = lemma_heaviest_place(front);
        let r = if ws.last().weight.less(front[k].weight) {
            k
        } else {
            ws.len() - 1
        };
        assert forall|j: int| 0 <= j < ws.len() implies (#[trigger] ws[j]).weight.at_most(
            ws[r].weight,
        ) && (j > r ==> ws[j].weight.less(ws[r].weight)) by {
            if j < front.len() {
                assert(front[j] == ws[j]);
            }
        }
        r
    }
}

} // verus!
