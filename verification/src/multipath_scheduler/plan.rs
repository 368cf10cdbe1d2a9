//! The plan of an epoch: load-balancing weights and redundant sending.
use vstd::prelude::*;

use crate::multipath_scheduler::candidate::{
    by_eta, candidate, candidates, inserted, law_candidates_are_the_usable_paths, make_candidate,
    sort_by_eta, usable_candidates, Candidate,
};
use crate::multipath_scheduler::least::{grant, grantable, granted, lemma_granted_len};
use crate::multipath_scheduler::{
    contents, Config, Epoch, EpochInput, EpochPlan, PathId, PathSnapshot, PathWeight, Plan,
    RedundancyMode, Scheduler,
};
use crate::num::double::{fraction, lemma_whole_monotone, of_whole, signed, F64};
use crate::num::facts::{lemma_fraction_at_most_one, lemma_zero_one};

verus! {

/// The first path with the given identifier.
pub open spec fn find_path(paths: Seq<PathSnapshot>, id: PathId) -> Option<PathSnapshot>
    decreases paths.len(),
{
    if paths.len() == 0 {
        None
    } else if paths.first().id == id {
        Some(paths.first())
    } else {
        find_path(paths.drop_first(), id)
    }
}

/// The first weight with the given identifier.
pub open spec fn find_weight(weights: Seq<PathWeight>, id: PathId) -> Option<F64>
    decreases weights.len(),
{
    if weights.len() == 0 {
        None
    } else if weights.first().id == id {
        Some(weights.first().weight)
    } else {
        find_weight(weights.drop_first(), id)
    }
}

/// The weight with the given identifier, or zero.
pub open spec fn weight_or_zero(weights: Seq<PathWeight>, id: PathId) -> F64 {
    match find_weight(weights, id) {
        Some(w) => w,
        None => signed(false, 0),
    }
}

/// The numbers added up from the first to the last.
pub open spec fn total(xs: Seq<F64>) -> F64
    decreases xs.len(),
{
    if xs.len() == 0 {
        signed(false, 0)
    } else {
        total(xs.drop_last()).sum(xs.last())
    }
}

/// How much later than the fastest path another may arrive: a quarter of the round trip
/// of the fastest, between four milliseconds and the cap.
pub open spec fn reorder_budget(cfg: Config, fastest: Candidate) -> F64 {
    fraction(1, 4).prod(fastest.srtt_ms.widened()).clamped(
        of_whole(4),
        of_whole(cfg.blest_delta_cap_ms as nat),
    )
}

/// The candidate arrives beyond the reordering budget.
pub open spec fn late(cfg: Config, c: Candidate, fastest: Candidate) -> bool {
    !c.eta_ms.at_most(fastest.eta_ms.sum(reorder_budget(cfg, fastest)))
}

/// The exponent that damps a late candidate: the time beyond the budget over the time
/// constant, negated.
pub open spec fn gate_exponent(cfg: Config, c: Candidate, fastest: Candidate) -> F64 {
    c.eta_ms.diff(fastest.eta_ms.sum(reorder_budget(cfg, fastest))).quot(
        cfg.blest_tau_ms,
    ).negated()
}

/// The share of its weight that a candidate keeps for its loss.
pub open spec fn loss_factor(cfg: Config, loss: F64) -> F64 {
    of_whole(1).diff(cfg.loss_gamma.prod(loss)).clamped(fraction(1, 5), of_whole(1))
}

/// The share of its weight that a candidate keeps for its queueing delay.
pub open spec fn queue_factor(cfg: Config, queue_delay_ms: F64) -> F64 {
    let target = of_whole(cfg.target_qdelay_ms as nat);
    if !cfg.enable_qaware || queue_delay_ms.at_most(target) {
        of_whole(1)
    } else {
        of_whole(1).quot(
            of_whole(1).sum(
                cfg.qaware_beta.prod(
                    queue_delay_ms.diff(target).quot(target).larger(signed(false, 0)),
                ),
            ),
        )
    }
}

/// The share of its weight that a candidate keeps for its time of arrival.
pub open spec fn order_factor(cfg: Config, c: Candidate, fastest: Candidate, gate: F64) -> F64 {
    if cfg.enable_blest && late(cfg, c, fastest) {
        gate
    } else {
        of_whole(1)
    }
}

/// The free part of the bandwidth-delay product, as a share of it.
pub open spec fn headroom_ratio(bw: F64, path: PathSnapshot) -> F64 {
    let bdp = bw.prod(path.min_rtt_ms.widened().quot(of_whole(1000)));
    let headroom = bdp.diff(of_whole(path.inflight_bytes as nat)).larger(signed(false, 0));
    if signed(false, 0).less(bdp) {
        headroom.quot(bdp)
    } else {
        signed(false, 0)
    }
}

/// The bonus for free bandwidth-delay product.
pub open spec fn headroom_boost(cfg: Config, ratio: F64) -> F64 {
    of_whole(1).sum(
        cfg.headroom_k.prod(ratio.clamped(signed(false, 0), of_whole(1))),
    ).smaller(cfg.headroom_cap)
}

/// The weight of a candidate before it is set against the others.
pub open spec fn raw_weight(
    cfg: Config,
    paths: Seq<PathSnapshot>,
    c: Candidate,
    fastest: Candidate,
    gate: F64,
) -> F64 {
    let found = find_path(paths, c.id);
    let bw = match found {
        Some(p) => p.bw_est_bps,
        None => signed(false, 0),
    }.larger(of_whole(1));
    let loss = match found {
        Some(p) => p.loss_rate.widened(),
        None => signed(false, 0),
    };
    let ratio = match found {
        Some(p) => headroom_ratio(bw, p),
        None => signed(false, 0),
    };
    let raw = bw.prod(loss_factor(cfg, loss)).prod(queue_factor(cfg, c.queue_delay_ms)).prod(
        order_factor(cfg, c, fastest, gate),
    ).prod(headroom_boost(cfg, ratio));
    if raw.less(fraction(1, 1_000_000_000)) {
        signed(false, 0)
    } else {
        raw
    }
}

/// The raw weights of candidates in order of arrival. `gates` holds one value for each
/// path of the input.
pub open spec fn raw_weights(
    cfg: Config,
    paths: Seq<PathSnapshot>,
    ranked: Seq<Candidate>,
    gates: Seq<F64>,
) -> Seq<F64> {
    Seq::new(
        ranked.len(),
        |i: int| raw_weight(cfg, paths, ranked[i], ranked[0], gates[ranked[i].slot as int]),
    )
}

/// Each number as a share of `whole`.
pub open spec fn shares(xs: Seq<F64>, whole: F64) -> Seq<F64> {
    Seq::new(xs.len(), |i: int| xs[i].quot(whole))
}

/// A new share, pulled towards the weight that the path had before.
pub open spec fn smoothed(cfg: Config, share: F64, before: Option<F64>) -> F64 {
    match before {
        Some(p) => cfg.smooth_alpha.prod(share).sum(of_whole(1).diff(cfg.smooth_alpha).prod(p)),
        None => share,
    }
}

/// The weight that a path had in the epoch before.
pub open spec fn weight_before(prev: Option<Seq<PathWeight>>, id: PathId) -> Option<F64> {
    match prev {
        Some(ws) => find_weight(ws, id),
        None => None,
    }
}

/// The shares of the candidates, smoothed.
pub open spec fn smoothed_shares(
    cfg: Config,
    ranked: Seq<Candidate>,
    raws: Seq<F64>,
    prev: Option<Seq<PathWeight>>,
) -> Seq<F64> {
    Seq::new(
        ranked.len(),
        |i: int| smoothed(cfg, shares(raws, total(raws))[i], weight_before(prev, ranked[i].id)),
    )
}

/// Each number, or `least` where it is smaller.
pub open spec fn raised(xs: Seq<F64>, least: F64) -> Seq<F64> {
    Seq::new(xs.len(), |i: int| xs[i].larger(least))
}

/// Shares raised to the least share and set against their sum.
pub open spec fn evened(xs: Seq<F64>, least: F64) -> Seq<F64> {
    shares(raised(xs, least), total(raised(xs, least)).larger(fraction(1, 1_000_000_000)))
}

/// Shares set against their sum, with the least share granted to each where there is enough for
/// all of them.
pub open spec fn balanced(cfg: Config, xs: Seq<F64>) -> Seq<F64> {
    if signed(false, 0).less(cfg.min_share) {
        if grantable(xs.len(), cfg.min_share) {
            granted(evened(xs, cfg.min_share), cfg.min_share)
        } else {
            evened(xs, cfg.min_share)
        }
    } else if signed(false, 0).less(total(xs)) {
        shares(xs, total(xs))
    } else {
        xs
    }
}

/// The weights of candidates.
pub open spec fn weights_of(ranked: Seq<Candidate>, xs: Seq<F64>) -> Seq<PathWeight> {
    Seq::new(ranked.len(), |i: int| PathWeight { id: ranked[i].id, weight: xs[i] })
}

/// Redundant sending over the two fastest paths, if the second arrives beyond the
/// reordering budget and both have enough weight.
pub open spec fn redundancy_for(
    cfg: Config,
    ranked: Seq<Candidate>,
    weights: Seq<PathWeight>,
) -> RedundancyMode {
    let (first, second) = (ranked[0], ranked[1]);
    let gap = second.eta_ms.diff(first.eta_ms);
    if cfg.enable_redundancy && reorder_budget(cfg, first).less(gap)
        && cfg.redundancy_min_weight.at_most(weight_or_zero(weights, first.id))
        && cfg.redundancy_min_weight.at_most(weight_or_zero(weights, second.id)) {
        RedundancyMode::ShortIdleCritical {
            duplicate_first_n: 1,
            pair: (first.id, second.id),
            budget_pkts: cfg.redundancy_epoch_budget_pkts,
        }
    } else {
        RedundancyMode::Off
    }
}

/// All the load on one path.
pub open spec fn single_plan(valid_until_ms: nat, id: PathId) -> Plan {
    Plan {
        valid_until_ms,
        weights: seq![PathWeight { id, weight: of_whole(1) }],
        redundancy: RedundancyMode::Off,
    }
}

/// The usable paths of an input, in order of arrival.
pub open spec fn ranked_candidates(cfg: Config, inp: Epoch) -> Seq<Candidate> {
    by_eta(usable_of(cfg, inp))
}

/// The usable paths of an input.
pub open spec fn usable_of(cfg: Config, inp: Epoch) -> Seq<Candidate> {
    candidates(cfg, inp.now_ms, inp.packet_len_hint, inp.paths)
}

/// The raw weights of an input.
pub open spec fn raws_of(cfg: Config, inp: Epoch, gates: Seq<F64>) -> Seq<F64> {
    raw_weights(cfg, inp.paths, ranked_candidates(cfg, inp), gates)
}

/// The weights of an input with several usable paths.
pub open spec fn weights_for(cfg: Config, inp: Epoch, gates: Seq<F64>) -> Seq<PathWeight> {
    let ranked = ranked_candidates(cfg, inp);
    weights_of(
        ranked,
        balanced(cfg, smoothed_shares(cfg, ranked, raws_of(cfg, inp, gates), inp.prev_weights)),
    )
}

/// The plan for an input.
pub open spec fn plan_for(cfg: Config, inp: Epoch, gates: Seq<F64>) -> Option<Plan> {
    let usable = usable_of(cfg, inp);
    let ranked = ranked_candidates(cfg, inp);
    let until = inp.now_ms + inp.epoch_ms;
    if usable.len() == 0 {
        None
    } else if usable.len() == 1 {
        Some(single_plan(until, usable[0].id))
    } else if total(raws_of(cfg, inp, gates)).at_most(signed(false, 0)) {
        Some(single_plan(until, ranked[0].id))
    } else {
        let weights = weights_for(cfg, inp, gates);
        Some(
            Plan {
                valid_until_ms: until,
                weights,
                redundancy: redundancy_for(cfg, ranked, weights),
            },
        )
    }
}

/// The exponent for each path of an input: that of its gate if the path is late, else
/// zero.
pub open spec fn exponents_for(cfg: Config, inp: Epoch) -> Seq<F64> {
    let ranked = ranked_candidates(cfg, inp);
    Seq::new(
        inp.paths.len(),
        |i: int|
            {
                let c = candidate(
                    cfg,
                    inp.now_ms,
                    inp.packet_len_hint,
                    inp.paths[i],
                    i as usize,
                );
                if usable_of(cfg, inp).len() >= 2 && inp.paths[i].usable() && cfg.enable_blest
                    && late(cfg, c, ranked[0]) {
                    gate_exponent(cfg, c, ranked[0])
                } else {
                    signed(false, 0)
                }
            },
    )
}

/// The budget has a range to lie in wherever it is needed.
pub open spec fn budget_defined(cfg: Config, inp: Epoch) -> bool {
    usable_of(cfg, inp).len() >= 2 ==> cfg.blest_delta_cap_ms >= 4
}

/// The first path with the given identifier.
pub fn path_with_id(paths: &Vec<PathSnapshot>, id: PathId) -> (r: Option<PathSnapshot>)
    ensures
        r == find_path(paths@, id),
{
    let mut i: usize = 0;
    assert(paths@.skip(0) =~= paths@);
    while i < paths.len()
        invariant
            i <= paths.len(),
            find_path(paths@, id) == find_path(paths@.skip(i as int), id),
        decreases paths.len() - i,
    {
        assert(paths@.skip(i as int).first() == paths@[i as int]);
        assert(paths@.skip(i as int).drop_first() =~= paths@.skip(i + 1));
        if paths[i].id == id {
            return Some(paths[i]);
        }
        i = i + 1;
    }
    None
}

/// The first weight with the given identifier.
pub fn weight_with_id(weights: &Vec<PathWeight>, id: PathId) -> (r: Option<F64>)
    ensures
        r == find_weight(weights@, id),
{
    let mut i: usize = 0;
    assert(weights@.skip(0) =~= weights@);
    while i < weights.len()
        invariant
            i <= weights.len(),
            find_weight(weights@, id) == find_weight(weights@.skip(i as int), id),
        decreases weights.len() - i,
    {
        assert(weights@.skip(i as int).first() == weights@[i as int]);
        assert(weights@.skip(i as int).drop_first() =~= weights@.skip(i + 1));
        if weights[i].id == id {
            return Some(weights[i].weight);
        }
        i = i + 1;
    }
    None
}

/// The weight with the given identifier, or zero.
pub fn weight_or_default(weights: &Vec<PathWeight>, id: PathId) -> (r: F64)
    ensures
        r == weight_or_zero(weights@, id),
{
    match weight_with_id(weights, id) {
        Some(w) => w,
        None => F64::zero(),
    }
}

/// The sum of numbers, added up from the first to the last.
pub fn sum_of(xs: &Vec<F64>) -> (r: F64)
    ensures
        r == total(xs@),
{
    let mut acc = F64::zero();
    let mut i: usize = 0;
    assert(xs@.take(0) =~= seq![]);
    while i < xs.len()
        invariant
            i <= xs.len(),
            acc == total(xs@.take(i as int)),
        decreases xs.len() - i,
    {
        proof {
            assert(xs@.take(i + 1).drop_last() =~= xs@.take(i as int));
        }
        acc = acc.plus(&xs[i]);
        i = i + 1;
    }
    assert(xs@.take(i as int) =~= xs@);
    acc
}

/// Each number as a share of `whole`.
pub fn shares_of(xs: &Vec<F64>, whole: &F64) -> (r: Vec<F64>)
    ensures
        r@ == shares(xs@, *whole),
{
    let mut out: Vec<F64> = Vec::new();
    let mut i: usize = 0;
    while i < xs.len()
        invariant
            i <= xs.len(),
            out.len() == i,
            forall|j: int| 0 <= j < i ==> #[trigger] out@[j] == xs@[j].quot(*whole),
        decreases xs.len() - i,
    {
        out.push(xs[i].over(whole));
        i = i + 1;
    }
    assert(out@ =~= shares(xs@, *whole));
    out
}

/// The reordering budget behind the fastest candidate.
pub fn budget_behind(cfg: &Config, fastest: &Candidate) -> (r: F64)
    requires
        cfg.blest_delta_cap_ms >= 4,
    ensures
        r == reorder_budget(*cfg, *fastest),
{
    proof {
        lemma_whole_monotone(4, cfg.blest_delta_cap_ms as nat);
    }
    F64::ratio(1, 4).times(&fastest.srtt_ms.widen()).clamp(
        &F64::from_u64(4),
        &F64::from_u64(cfg.blest_delta_cap_ms as u64),
    )
}

/// The weight of a candidate before it is set against the others.
pub fn compute_raw_weight(
    cfg: &Config,
    paths: &Vec<PathSnapshot>,
    c: &Candidate,
    fastest: &Candidate,
    gate: &F64,
) -> (r: F64)
    requires
        cfg.blest_delta_cap_ms >= 4,
    ensures
        r == raw_weight(*cfg, paths@, *c, *fastest, *gate),
{
    let one = F64::from_u64(1);
    let found = path_with_id(paths, c.id);
    let bw = match &found {
        Some(p) => p.bw_est_bps,
        None => F64::zero(),
    }.max(&one);
    let loss = match &found {
        Some(p) => p.loss_rate.widen(),
        None => F64::zero(),
    };
    proof {
        lemma_fraction_at_most_one(1, 5);
        lemma_zero_one();
    }
    let loss_part = one.minus(&cfg.loss_gamma.times(&loss)).clamp(&F64::ratio(1, 5), &one);
    let target = F64::from_u64(cfg.target_qdelay_ms as u64);
    let queue_part = if !cfg.enable_qaware || c.queue_delay_ms.le(&target) {
        one
    } else {
        let over = c.queue_delay_ms.minus(&target).over(&target);
        one.over(&one.plus(&cfg.qaware_beta.times(&over.max(&F64::zero()))))
    };
    let limit = fastest.eta_ms.plus(&budget_behind(cfg, fastest));
    let order_part = if cfg.enable_blest && !c.eta_ms.le(&limit) {
        *gate
    } else {
        one
    };
    let ratio = match &found {
        Some(p) => {
            let bdp = bw.times(&p.min_rtt_ms.widen().over(&F64::from_u64(1000)));
            let headroom = bdp.minus(&F64::from_u64(p.inflight_bytes as u64)).max(&F64::zero());
            if F64::zero().lt(&bdp) {
                headroom.over(&bdp)
            } else {
                F64::zero()
            }
        },
        None => F64::zero(),
    };
    let boost = one.plus(&cfg.headroom_k.times(&ratio.clamp(&F64::zero(), &one))).min(
        &cfg.headroom_cap,
    );
    let raw = bw.times(&loss_part).times(&queue_part).times(&order_part).times(&boost);
    if raw.lt(&F64::ratio(1, 1_000_000_000)) {
        F64::zero()
    } else {
        raw
    }
}

/// The shares of the candidates, smoothed.
fn smooth(
    cfg: &Config,
    ranked: &Vec<Candidate>,
    raws: &Vec<F64>,
    sum: &F64,
    prev: &Option<Vec<PathWeight>>,
) -> (r: Vec<F64>)
    requires
        raws.len() == ranked.len(),
        *sum == total(raws@),
    ensures
        r@ == smoothed_shares(*cfg, ranked@, raws@, contents(*prev)),
{
    let parts = shares_of(raws, sum);
    let mut out: Vec<F64> = Vec::new();
    let mut i: usize = 0;
    while i < ranked.len()
        invariant
            i <= ranked.len(),
            parts.len() == ranked.len(),
            out.len() == i,
            forall|j: int|
                0 <= j < i ==> #[trigger] out@[j] == smoothed(
                    *cfg,
                    parts@[j],
                    weight_before(contents(*prev), ranked@[j].id),
                ),
        decreases ranked.len() - i,
    {
        let old = match prev {
            Some(v) => weight_with_id(v, ranked[i].id),
            None => None,
        };
        let next = match old {
            Some(p) => cfg.smooth_alpha.times(&parts[i]).plus(
                &F64::from_u64(1).minus(&cfg.smooth_alpha).times(&p),
            ),
            None => parts[i],
        };
        out.push(next);
        i = i + 1;
    }
    assert(out@ =~= smoothed_shares(*cfg, ranked@, raws@, contents(*prev)));
    out
}

/// Shares set against their sum, with the least share granted to each where there is enough for
/// all of them.
pub fn balance(cfg: &Config, xs: &Vec<F64>) -> (r: Vec<F64>)
    ensures
        r@ == balanced(*cfg, xs@),
{
    if F64::zero().lt(&cfg.min_share) {
        let mut up: Vec<F64> = Vec::new();
        let mut i: usize = 0;
        while i < xs.len()
            invariant
                i <= xs.len(),
                up.len() == i,
                forall|j: int| 0 <= j < i ==> #[trigger] up@[j] == xs@[j].larger(cfg.min_share),
            decreases xs.len() - i,
        {
            up.push(xs[i].max(&cfg.min_share));
            i = i + 1;
        }
        assert(up@ =~= raised(xs@, cfg.min_share));
        let sum = sum_of(&up);
        let even = shares_of(&up, &sum.max(&F64::ratio(1, 1_000_000_000)));
        if F64::from_u64(xs.len() as u64).times(&cfg.min_share).le(&F64::from_u64(1)) {
            grant(even, &cfg.min_share)
        } else {
            even
        }
    } else {
        let sum = sum_of(xs);
        if F64::zero().lt(&sum) {
            shares_of(xs, &sum)
        } else {
            xs.clone()
        }
    }
}

/// Whether packets are sent over the two fastest paths.
pub fn plan_redundancy(cfg: &Config, ranked: &Vec<Candidate>, weights: &Vec<PathWeight>) -> (r:
    RedundancyMode)
    requires
        ranked.len() >= 2,
        cfg.blest_delta_cap_ms >= 4,
    ensures
        r == redundancy_for(*cfg, ranked@, weights@),
{
    let (first, second) = (ranked[0], ranked[1]);
    let gap = second.eta_ms.minus(&first.eta_ms);
    let w1 = weight_or_default(weights, first.id);
    let w2 = weight_or_default(weights, second.id);
    if cfg.enable_redundancy && budget_behind(cfg, &first).lt(&gap)
        && cfg.redundancy_min_weight.le(&w1) && cfg.redundancy_min_weight.le(&w2) {
        RedundancyMode::ShortIdleCritical {
            duplicate_first_n: 1,
            pair: (first.id, second.id),
            budget_pkts: cfg.redundancy_epoch_budget_pkts,
        }
    } else {
        RedundancyMode::Off
    }
}

/// Sorting keeps a bound on the slots.
proof fn lemma_sorted_slots(cs: Seq<Candidate>, n: int)
    requires
        forall|i: int| 0 <= i < cs.len() ==> (#[trigger] cs[i]).slot < n,
    ensures
        by_eta(cs).len() == cs.len(),
        forall|i: int| 0 <= i < cs.len() ==> (#[trigger] by_eta(cs)[i]).slot < n,
    decreases cs.len(),
{
    if cs.len() > 0 {
        lemma_sorted_slots(cs.drop_last(), n);
        lemma_inserted_slots(by_eta(cs.drop_last()), cs.last(), n);
    }
}

proof fn lemma_inserted_slots(s: Seq<Candidate>, c: Candidate, n: int)
    requires
        forall|i: int| 0 <= i < s.len() ==> (#[trigger] s[i]).slot < n,
        c.slot < n,
    ensures
        inserted(s, c).len() == s.len() + 1,
        forall|i: int| 0 <= i <= s.len() ==> (#[trigger] inserted(s, c)[i]).slot < n,
    decreases s.len(),
{
    if s.len() > 0 {
        lemma_inserted_slots(s.drop_last(), c, n);
    }
}

impl Scheduler {
    /// The exponents of the gates for late paths, one for each path of the input and zero
    /// where a path is not late. Each gate is the exponential of its number.
    pub fn blest_exponents(&self, inp: &EpochInput) -> (r: Vec<F64>)
        requires
            budget_defined(self.cfg, inp@),
        ensures
            r@ == exponents_for(self.cfg, inp@),
    {
        let cfg = &self.cfg;
        let usable = usable_candidates(cfg, inp.now_ms, inp.packet_len_hint, &inp.paths);
        let ranked = sort_by_eta(&usable);
        let mut out: Vec<F64> = Vec::new();
        let mut i: usize = 0;
        while i < inp.paths.len()
            invariant
                i <= inp.paths.len(),
                out.len() == i,
                *cfg == self.cfg,
                budget_defined(self.cfg, inp@),
                usable@ == usable_of(self.cfg, inp@),
                ranked@ == ranked_candidates(self.cfg, inp@),
                ranked.len() == usable.len(),
                forall|j: int|
                    0 <= j < i ==> #[trigger] out@[j] == exponents_for(self.cfg, inp@)[j],
            decreases inp.paths.len() - i,
        {
            let path = &inp.paths[i];
            let mut exponent = F64::zero();
            if usable.len() >= 2 && path.is_usable() && cfg.enable_blest {
                let fastest = &ranked[0];
                let c = make_candidate(cfg, inp.now_ms, inp.packet_len_hint, path, i);
                let limit = fastest.eta_ms.plus(&budget_behind(cfg, fastest));
                if !c.eta_ms.le(&limit) {
                    exponent = c.eta_ms.minus(&limit).over(&cfg.blest_tau_ms).neg();
                }
            }
            out.push(exponent);
            i = i + 1;
        }
        assert(out@ =~= exponents_for(self.cfg, inp@));
        out
    }

    /// The plan for an epoch. `gates` holds, for each path of the input, the exponential of
    /// what [`Scheduler::blest_exponents`] gives for it.
    pub fn compute_plan(&self, inp: &EpochInput, gates: &Vec<F64>) -> (r: Option<EpochPlan>)
        requires
            gates.len() == inp.paths.len(),
            budget_defined(self.cfg, inp@),
            usable_of(self.cfg, inp@).len() > 0 ==> inp.now_ms + inp.epoch_ms <= u64::MAX,
        ensures
            r is None <==> plan_for(self.cfg, inp@, gates@) is None,
            r matches Some(plan) ==> plan@ == plan_for(self.cfg, inp@, gates@).unwrap(),
    {
        let cfg = &self.cfg;
        let usable = usable_candidates(cfg, inp.now_ms, inp.packet_len_hint, &inp.paths);
        if usable.len() == 0 {
            return None;
        }
        let until: u64 = inp.now_ms + inp.epoch_ms as u64;
        if usable.len() == 1 {
            let lb_weights = vec![PathWeight { id: usable[0].id, weight: F64::from_u64(1) }];
            let plan = EpochPlan { valid_until_ms: until, lb_weights, redundancy: RedundancyMode::Off };
            assert(plan@.weights =~= single_plan(until as nat, usable@[0].id).weights);
            return Some(plan);
        }
        let ranked = sort_by_eta(&usable);
        proof {
            law_candidates_are_the_usable_paths(
                self.cfg,
                inp.now_ms as nat,
                inp.packet_len_hint as nat,
                inp.paths@,
            );
            lemma_sorted_slots(usable@, inp.paths@.len() as int);
        }
        let fastest = ranked[0];
        let mut raws: Vec<F64> = Vec::new();
        let mut i: usize = 0;
        while i < ranked.len()
            invariant
                i <= ranked.len(),
                raws.len() == i,
                *cfg == self.cfg,
                cfg.blest_delta_cap_ms >= 4,
                gates.len() == inp.paths.len(),
                ranked.len() > 0,
                fastest == ranked@[0],
                forall|j: int|
                    0 <= j < ranked.len() ==> (#[trigger] ranked@[j]).slot < inp.paths.len(),
                forall|j: int|
                    0 <= j < i ==> #[trigger] raws@[j] == raw_weight(
                        self.cfg,
                        inp.paths@,
                        ranked@[j],
                        ranked@[0],
                        gates@[ranked@[j].slot as int],
                    ),
            decreases ranked.len() - i,
        {
            let c = ranked[i];
            raws.push(compute_raw_weight(cfg, &inp.paths, &c, &fastest, &gates[c.slot]));
            i = i + 1;
        }
        assert(raws@ =~= raws_of(self.cfg, inp@, gates@));
        let sum = sum_of(&raws);
        if sum.le(&F64::zero()) {
            let lb_weights = vec![PathWeight { id: fastest.id, weight: F64::from_u64(1) }];
            let plan = EpochPlan { valid_until_ms: until, lb_weights, redundancy: RedundancyMode::Off };
            assert(plan@.weights =~= single_plan(until as nat, fastest.id).weights);
            return Some(plan);
        }
        let parts = smooth(cfg, &ranked, &raws, &sum, &inp.prev_weights);
        let even = balance(cfg, &parts);
        proof {
            lemma_granted_len(evened(parts@, cfg.min_share), cfg.min_share);
        }
        let mut weights: Vec<PathWeight> = Vec::new();
        let mut k: usize = 0;
        while k < ranked.len()
            invariant
                k <= ranked.len(),
                weights.len() == k,
                even.len() == ranked.len(),
                forall|j: int|
                    0 <= j < k ==> #[trigger] weights@[j] == (PathWeight {
                        id: ranked@[j].id,
                        weight: even@[j],
                    }),
            decreases ranked.len() - k,
        {
            weights.push(PathWeight { id: ranked[k].id, weight: even[k] });
            k = k + 1;
        }
        assert(weights@ =~= weights_for(self.cfg, inp@, gates@));
        let redundancy = plan_redundancy(cfg, &ranked, &weights);
        Some(EpochPlan { valid_until_ms: until, lb_weights: weights, redundancy })
    }
}

} // verus!
