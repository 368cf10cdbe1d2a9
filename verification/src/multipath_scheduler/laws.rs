//! What holds of every plan and every decision.
use vstd::prelude::*;

use crate::multipath_scheduler::candidate::{
    by_eta, candidate, candidates, in_order, law_candidates_are_the_usable_paths,
    law_sorting_is_stable, stable, Candidate,
};
use crate::multipath_scheduler::guards::{in_budget, within_budget};
use crate::multipath_scheduler::pick::{decision_for, epoch_of, heaviest, pick_for, triggered};
use crate::multipath_scheduler::plan::{
    plan_for, ranked_candidates, raws_of, reorder_budget, single_plan, total, usable_of,
    weight_or_zero,
};
use crate::multipath_scheduler::{
    Config, Epoch, PathId, PathSnapshot, PathWeight, PickInput, Plan, RedundancyMode,
};
use crate::num::double::{signed, F64};

verus! {

/// Some usable path has the given identifier.
pub open spec fn usable_id(paths: Seq<PathSnapshot>, id: PathId) -> bool {
    exists|k: int| 0 <= k < paths.len() && (#[trigger] paths[k]).usable() && paths[k].id == id
}

/// The candidates in order of arrival are the usable paths: each stands for one, and each
/// usable path has one.
pub proof fn lemma_ranked(cfg: Config, inp: Epoch)
    requires
        inp.paths.len() <= usize::MAX,
    ensures
        ranked_candidates(cfg, inp).len() == usable_of(cfg, inp).len(),
        in_order(ranked_candidates(cfg, inp)),
        stable(ranked_candidates(cfg, inp)),
        ranked_candidates(cfg, inp).to_multiset() == usable_of(cfg, inp).to_multiset(),
        forall|i: int|
            0 <= i < ranked_candidates(cfg, inp).len() ==> {
                let c = #[trigger] ranked_candidates(cfg, inp)[i];
                &&& c.slot < inp.paths.len()
                &&& inp.paths[c.slot as int].usable()
                &&& c == candidate(
                    cfg,
                    inp.now_ms,
                    inp.packet_len_hint,
                    inp.paths[c.slot as int],
                    c.slot,
                )
            },
        forall|k: int|
            0 <= k < inp.paths.len() && (#[trigger] inp.paths[k]).usable() ==> ranked_candidates(
                cfg,
                inp,
            ).contains(
                candidate(cfg, inp.now_ms, inp.packet_len_hint, inp.paths[k], k as usize),
            ),
{
    broadcast use vstd::seq_lib::group_to_multiset_ensures;

    law_candidates_are_the_usable_paths(cfg, inp.now_ms, inp.packet_len_hint, inp.paths);
    let usable = usable_of(cfg, inp);
    law_sorting_is_stable(usable);
    let ranked = ranked_candidates(cfg, inp);
    assert forall|i: int| 0 <= i < ranked.len() implies {
        let c = #[trigger] ranked[i];
        &&& c.slot < inp.paths.len()
        &&& inp.paths[c.slot as int].usable()
        &&& c == candidate(
            cfg,
            inp.now_ms,
            inp.packet_len_hint,
            inp.paths[c.slot as int],
            c.slot,
        )
    } by {
        assert(ranked.contains(ranked[i]));
        assert(usable.to_multiset().count(ranked[i]) > 0);
        assert(usable.contains(ranked[i]));
        let j = choose|j: int| 0 <= j < usable.len() && usable[j] == ranked[i];
        assert(usable[j].slot < inp.paths.len());
    }
    assert forall|k: int|
        0 <= k < inp.paths.len() && (#[trigger] inp.paths[k]).usable() implies ranked.contains(
        candidate(cfg, inp.now_ms, inp.packet_len_hint, inp.paths[k], k as usize),
    ) by {
        let c = candidate(cfg, inp.now_ms, inp.packet_len_hint, inp.paths[k], k as usize);
        assert(usable.contains(c));
        assert(usable.to_multiset().count(c) > 0);
        assert(ranked.to_multiset().count(c) > 0);
    }
}

/// Each usable path has one place in the order of arrival.
pub proof fn lemma_places_differ(cfg: Config, inp: Epoch, i: int, j: int)
    requires
        inp.paths.len() <= usize::MAX,
        0 <= i < ranked_candidates(cfg, inp).len(),
        0 <= j < ranked_candidates(cfg, inp).len(),
        i != j,
    ensures
        ranked_candidates(cfg, inp)[i].slot != ranked_candidates(cfg, inp)[j].slot,
{
    lemma_ranked(cfg, inp);
    law_candidates_are_the_usable_paths(cfg, inp.now_ms, inp.packet_len_hint, inp.paths);
    let usable = usable_of(cfg, inp);
    let ranked = ranked_candidates(cfg, inp);
    assert(usable.no_duplicates()) by {
        assert forall|g: int, h: int|
            0 <= g < usable.len() && 0 <= h < usable.len() && g != h implies usable[g]
            != usable[h] by {
            if g < h {
                assert(usable[g].slot < usable[h].slot);
            } else {
                assert(usable[h].slot < usable[g].slot);
            }
        }
    }
    usable.lemma_multiset_has_no_duplicates();
    ranked.lemma_multiset_has_no_duplicates_conv();
    let (c, d) = (ranked[i], ranked[j]);
    assert(c != d);
    assert(inp.paths[c.slot as int].usable() && inp.paths[d.slot as int].usable());
}

/// There is a plan if and only if some path is usable. Every weight of a plan is that of a
/// usable path, and a plan holds until the end of its epoch.
pub proof fn law_plans_are_over_usable_paths(cfg: Config, inp: Epoch, gates: Seq<F64>)
    requires
        inp.paths.len() <= usize::MAX,
    ensures
        plan_for(cfg, inp, gates) is Some <==> exists|k: int|
            0 <= k < inp.paths.len() && (#[trigger] inp.paths[k]).usable(),
        plan_for(cfg, inp, gates) matches Some(plan) ==> {
            &&& plan.valid_until_ms == inp.now_ms + inp.epoch_ms
            &&& plan.weights.len() > 0
            &&& forall|i: int|
                0 <= i < plan.weights.len() ==> usable_id(
                    inp.paths,
                    (#[trigger] plan.weights[i]).id,
                )
        },
{
    lemma_ranked(cfg, inp);
    law_candidates_are_the_usable_paths(cfg, inp.now_ms, inp.packet_len_hint, inp.paths);
    let usable = usable_of(cfg, inp);
    let ranked = ranked_candidates(cfg, inp);
    if usable.len() > 0 {
        let plan = plan_for(cfg, inp, gates).unwrap();
        assert(inp.paths[usable[0].slot as int].usable());
        assert forall|i: int| 0 <= i < plan.weights.len() implies usable_id(
            inp.paths,
            (#[trigger] plan.weights[i]).id,
        ) by {
            let c = if usable.len() == 1 {
                usable[0]
            } else if total(raws_of(cfg, inp, gates)).at_most(signed(false, 0)) {
                ranked[0]
            } else {
                ranked[i]
            };
            assert(inp.paths[c.slot as int].usable());
            assert(inp.paths[c.slot as int].id == plan.weights[i].id);
        }
    } else {
        assert forall|k: int| 0 <= k < inp.paths.len() implies !(#[trigger] inp.paths[k]).usable() by {
            if inp.paths[k].usable() {
                let c = candidate(cfg, inp.now_ms, inp.packet_len_hint, inp.paths[k], k as usize);
                assert(ranked.contains(c));
            }
        }
    }
}

/// Where the load is spread, every usable path has a weight, one for each.
pub proof fn law_every_usable_path_has_a_weight(cfg: Config, inp: Epoch, gates: Seq<F64>, k: int)
    requires
        inp.paths.len() <= usize::MAX,
        usable_of(cfg, inp).len() >= 2,
        !total(raws_of(cfg, inp, gates)).at_most(signed(false, 0)),
        0 <= k < inp.paths.len(),
        inp.paths[k].usable(),
    ensures
        ({
            let plan = plan_for(cfg, inp, gates).unwrap();
            &&& plan.weights.len() == usable_of(cfg, inp).len()
            &&& exists|i: int|
                0 <= i < plan.weights.len() && (#[trigger] plan.weights[i]).id == inp.paths[k].id
        }),
{
    lemma_ranked(cfg, inp);
    let ranked = ranked_candidates(cfg, inp);
    let plan = plan_for(cfg, inp, gates).unwrap();
    let c = candidate(cfg, inp.now_ms, inp.packet_len_hint, inp.paths[k], k as usize);
    assert(ranked.contains(c));
    let i = choose|i: int| 0 <= i < ranked.len() && ranked[i] == c;
    assert(plan.weights[i].id == inp.paths[k].id);
}

/// With one usable path, or with nothing to weigh the paths by, one path carries the whole load
/// and nothing is sent twice; in the second case it is the first to arrive.
pub proof fn law_single_path_carries_all(cfg: Config, inp: Epoch, gates: Seq<F64>)
    requires
        inp.paths.len() <= usize::MAX,
        usable_of(cfg, inp).len() >= 1,
        usable_of(cfg, inp).len() == 1 || total(raws_of(cfg, inp, gates)).at_most(signed(false, 0)),
    ensures
        plan_for(cfg, inp, gates) == Some(
            single_plan(inp.now_ms + inp.epoch_ms, ranked_candidates(cfg, inp)[0].id),
        ),
        plan_for(cfg, inp, gates).unwrap().redundancy is Off,
{
    broadcast use vstd::seq_lib::group_to_multiset_ensures;

    lemma_ranked(cfg, inp);
    let usable = usable_of(cfg, inp);
    let ranked = ranked_candidates(cfg, inp);
    if usable.len() == 1 {
        assert(ranked.contains(ranked[0]));
        assert(usable.to_multiset().count(ranked[0]) > 0);
        assert(usable.contains(ranked[0]));
    }
}

/// What is sent twice goes over the two paths that arrive first; the second of them arrives
/// beyond the reordering budget, both have the weight that redundant sending asks for, and the
/// budget of copies is the configured one. Without the switch nothing is sent twice.
pub proof fn law_redundancy_is_over_the_two_fastest(cfg: Config, inp: Epoch, gates: Seq<F64>)
    requires
        inp.paths.len() <= usize::MAX,
    ensures
        plan_for(cfg, inp, gates) matches Some(plan) ==> match plan.redundancy {
            RedundancyMode::Off => true,
            RedundancyMode::ShortIdleCritical { duplicate_first_n, pair, budget_pkts } => {
                let ranked = ranked_candidates(cfg, inp);
                let (first, second) = (ranked[0], ranked[1]);
                &&& cfg.enable_redundancy
                &&& ranked.len() >= 2
                &&& pair == (first.id, second.id)
                &&& forall|i: int|
                    2 <= i < ranked.len() ==> first.eta_ms.rank() <= second.eta_ms.rank() <= (
                    #[trigger] ranked[i]).eta_ms.rank()
                &&& reorder_budget(cfg, first).less(second.eta_ms.diff(first.eta_ms))
                &&& cfg.redundancy_min_weight.at_most(weight_or_zero(plan.weights, first.id))
                &&& cfg.redundancy_min_weight.at_most(weight_or_zero(plan.weights, second.id))
                &&& budget_pkts == cfg.redundancy_epoch_budget_pkts
                &&& duplicate_first_n == 1
            },
            RedundancyMode::Percentage { .. } => false,
        },
{
    lemma_ranked(cfg, inp);
}

/// The heaviest weight is one of the weights.
proof fn lemma_heaviest(weights: Seq<PathWeight>) -> (i: int)
    requires
        weights.len() > 0,
    ensures
        0 <= i < weights.len(),
        weights[i] == heaviest(weights),
    decreases weights.len(),
{
    if weights.len() == 1 {
        0
    } else {
        let before = lemma_heaviest(weights.drop_last());
        if weights.last().weight.less(heaviest(weights.drop_last()).weight) {
            before
        } else {
            weights.len() - 1
        }
    }
}

/// No weight is above the heaviest, where all are numbers.
proof fn lemma_heaviest_is_most(weights: Seq<PathWeight>, i: int)
    requires
        0 <= i < weights.len(),
        forall|j: int| 0 <= j < weights.len() ==> !(#[trigger] weights[j]).weight.nan(),
    ensures
        weights[i].weight.at_most(heaviest(weights).weight),
        !heaviest(weights).weight.nan(),
    decreases weights.len(),
{
    if weights.len() > 1 {
        let front = weights.drop_last();
        assert forall|j: int| 0 <= j < front.len() implies !(#[trigger] front[j]).weight.nan() by {
            assert(!weights[j].weight.nan());
        }
        assert(!weights[weights.len() - 1].weight.nan());
        if i < front.len() {
            lemma_heaviest_is_most(front, i);
            assert(front[i] == weights[i]);
        } else {
            lemma_heaviest_is_most(front, 0);
        }
    }
}

/// There is a decision if and only if some path is usable. A packet goes over a usable path.
/// A second copy goes over another usable path, and only for packets of short flows, after
/// idle times, and for critical ones.
pub proof fn law_decisions_are_over_usable_paths(cfg: Config, inp: PickInput, gates: Seq<F64>)
    ensures
        pick_for(cfg, inp, gates) is Some <==> exists|k: int|
            0 <= k < inp.paths@.len() && (#[trigger] inp.paths@[k]).usable(),
        pick_for(cfg, inp, gates) matches Some(d) ==> usable_id(inp.paths@, d.primary) && (
        d.redundant matches Some(r) ==> r != d.primary && triggered(cfg, inp)
            && cfg.enable_redundancy && usable_id(inp.paths@, r)),
{
    let epoch = epoch_of(inp);
    assert(inp.paths.len() == epoch.paths.len());
    law_plans_are_over_usable_paths(cfg, epoch, gates);
    if plan_for(cfg, epoch, gates) is Some {
        let plan = plan_for(cfg, epoch, gates).unwrap();
        let i = lemma_heaviest(plan.weights);
        assert(usable_id(inp.paths@, plan.weights[i].id));
        law_redundancy_is_over_the_two_fastest(cfg, epoch, gates);
        lemma_ranked(cfg, epoch);
        let ranked = ranked_candidates(cfg, epoch);
        if ranked.len() >= 2 {
            assert(inp.paths@[ranked[0].slot as int].usable());
            assert(inp.paths@[ranked[1].slot as int].usable());
            assert(usable_id(inp.paths@, ranked[0].id));
            assert(usable_id(inp.paths@, ranked[1].id));
        }
    }
}

/// The path that a packet goes over has the most weight of all, where the weights are numbers.
pub proof fn law_primary_has_the_most_weight(cfg: Config, inp: PickInput, plan: Plan) -> (i: int)
    requires
        plan.weights.len() > 0,
        forall|j: int| 0 <= j < plan.weights.len() ==> !(#[trigger] plan.weights[j]).weight.nan(),
    ensures
        0 <= i < plan.weights.len(),
        plan.weights[i].id == decision_for(cfg, inp, plan).primary,
        forall|j: int|
            0 <= j < plan.weights.len() ==> (#[trigger] plan.weights[j]).weight.at_most(
                plan.weights[i].weight,
            ),
{
    let i = lemma_heaviest(plan.weights);
    assert forall|j: int| 0 <= j < plan.weights.len() implies (
    #[trigger] plan.weights[j]).weight.at_most(plan.weights[i].weight) by {
        lemma_heaviest_is_most(plan.weights, j);
    }
    i
}

/// What passes a filter was there before.
proof fn lemma_filtered(s: Seq<Candidate>, pass: spec_fn(Candidate) -> bool)
    ensures
        forall|i: int| 0 <= i < s.filter(pass).len() ==> s.contains(#[trigger] s.filter(pass)[i]),
    decreases s.len(),
{
    reveal(Seq::filter);
    if s.len() > 0 {
        let front = s.drop_last();
        lemma_filtered(front, pass);
        let f = s.filter(pass);
        assert forall|i: int| 0 <= i < f.len() implies s.contains(#[trigger] f[i]) by {
            if i < front.filter(pass).len() {
                assert(front.contains(front.filter(pass)[i]));
                let k = choose|k: int| 0 <= k < front.len() && front[k] == f[i];
                assert(s[k] == f[i]);
            } else {
                assert(s[s.len() - 1] == f[i]);
            }
        }
    }
}

/// The reordering filter hands on candidates that it was given, in order of arrival, and drops
/// only ones that arrive beyond the budget; of any candidates it keeps at least one.
pub proof fn law_filter_keeps_timely_candidates(cfg: Config, cs: Seq<Candidate>)
    requires
        forall|i: int, j: int|
            0 <= i < j < cs.len() ==> (#[trigger] cs[i]).slot < (#[trigger] cs[j]).slot,
    ensures
        ({
            let kept = within_budget(cfg, cs);
            let fastest = by_eta(cs)[0];
            &&& cs.len() > 0 ==> kept.len() > 0
            &&& forall|i: int| 0 <= i < kept.len() ==> cs.contains(#[trigger] kept[i])
            &&& forall|i: int|
                0 <= i < cs.len() && in_budget(cfg, fastest, #[trigger] cs[i]) ==> kept.contains(
                    cs[i],
                )
            &&& forall|i: int|
                0 <= i < kept.len() ==> in_budget(cfg, fastest, #[trigger] kept[i]) || kept == seq![
                    fastest,
                ]
        }),
{
    broadcast use vstd::seq_lib::group_to_multiset_ensures;
    broadcast use vstd::seq_lib::group_filter_ensures;

    law_sorting_is_stable(cs);
    let sorted = by_eta(cs);
    let pass = |c: Candidate| in_budget(cfg, sorted[0], c);
    let kept = within_budget(cfg, cs);
    lemma_filtered(sorted, pass);
    assert forall|i: int| 0 <= i < sorted.len() implies cs.contains(#[trigger] sorted[i]) by {
        assert(sorted.contains(sorted[i]));
        assert(sorted.to_multiset().count(sorted[i]) > 0);
        assert(cs.to_multiset().count(sorted[i]) > 0);
    }
    assert forall|i: int| 0 <= i < cs.len() implies sorted.contains(#[trigger] cs[i]) by {
        assert(cs.contains(cs[i]));
        assert(cs.to_multiset().count(cs[i]) > 0);
        assert(sorted.to_multiset().count(cs[i]) > 0);
    }
    let filtered = sorted.filter(pass);
    assert forall|i: int| 0 <= i < kept.len() implies cs.contains(#[trigger] kept[i]) && (in_budget(
        cfg,
        sorted[0],
        kept[i],
    ) || kept == seq![sorted[0]]) by {
        if kept == filtered {
            assert(sorted.contains(filtered[i]));
            let k = choose|k: int| 0 <= k < sorted.len() && sorted[k] == filtered[i];
            assert(cs.contains(sorted[k]));
        } else {
            assert(cs.contains(sorted[0]));
        }
    }
    assert forall|i: int|
        0 <= i < cs.len() && in_budget(cfg, sorted[0], #[trigger] cs[i]) implies kept.contains(
        cs[i],
    ) by {
        let k = choose|k: int| 0 <= k < sorted.len() && sorted[k] == cs[i];
        assert(pass(sorted[k]));
        assert(filtered.contains(sorted[k]));
    }
}

} // verus!
