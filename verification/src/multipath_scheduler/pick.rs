//! The decision for one packet.
use vstd::prelude::*;

use crate::multipath_scheduler::plan::{
    budget_defined, plan_for, usable_of, weight_or_default, weight_or_zero,
};
use crate::multipath_scheduler::{
    Config, Decision, Epoch, EpochInput, EpochPlan, PathId, PathSnapshot, PathWeight, PickInput,
    Plan, RedundancyMode, Scheduler,
};
use crate::num::double::F64;

verus! {

/// The epoch that a decision for one packet is made in.
pub open spec fn epoch_of(inp: PickInput) -> Epoch {
    Epoch {
        now_ms: inp.now_ms as nat,
        epoch_ms: 200,
        packet_len_hint: inp.packet_len as nat,
        paths: inp.paths@,
        prev_weights: None,
    }
}

/// The heaviest of some weights, the last one of several.
pub open spec fn heaviest(weights: Seq<PathWeight>) -> PathWeight
    decreases weights.len(),
{
    if weights.len() <= 1 {
        weights[0]
    } else {
        let before = heaviest(weights.drop_last());
        if weights.last().weight.less(before.weight) {
            before
        } else {
            weights.last()
        }
    }
}

/// Some path has been idle for long enough.
pub open spec fn idle_burst(cfg: Config, paths: Seq<PathSnapshot>) -> bool {
    exists|i: int| 0 <= i < paths.len() && (#[trigger] paths[i]).last_tx_age_ms >= cfg.idle_burst_ms
}

/// The packet may be sent twice: it belongs to a short flow, follows an idle time or is
/// critical.
pub open spec fn triggered(cfg: Config, inp: PickInput) -> bool {
    inp.flow_bytes_sent <= cfg.short_flow_thresh || idle_burst(cfg, inp.paths@) || inp.critical
}

/// The path of a pair that carries the second copy beside `primary`: the other one of the
/// pair, or the heavier one if `primary` is not of the pair.
pub open spec fn partner(
    weights: Seq<PathWeight>,
    pair: (PathId, PathId),
    primary: PathId,
) -> Option<PathId> {
    let (a, b) = pair;
    if a != primary && b != primary {
        if weight_or_zero(weights, b).at_most(weight_or_zero(weights, a)) {
            Some(a)
        } else {
            Some(b)
        }
    } else if b != primary {
        Some(b)
    } else if a != primary {
        Some(a)
    } else {
        None
    }
}

/// The path for a second copy under a plan.
pub open spec fn second_copy(plan: Plan, primary: PathId) -> Option<PathId> {
    match plan.redundancy {
        RedundancyMode::ShortIdleCritical { pair, .. } => partner(plan.weights, pair, primary),
        RedundancyMode::Percentage { pair, .. } => partner(plan.weights, pair, primary),
        RedundancyMode::Off => None,
    }
}

/// The decision for a packet under a plan.
pub open spec fn decision_for(cfg: Config, inp: PickInput, plan: Plan) -> Decision {
    let primary = heaviest(plan.weights).id;
    Decision {
        primary,
        redundant: if triggered(cfg, inp) {
            second_copy(plan, primary)
        } else {
            None
        },
    }
}

/// The decision for a packet, if some path is usable.
pub open spec fn pick_for(cfg: Config, inp: PickInput, gates: Seq<F64>) -> Option<Decision> {
    match plan_for(cfg, epoch_of(inp), gates) {
        Some(plan) => if plan.weights.len() == 0 {
            None
        } else {
            Some(decision_for(cfg, inp, plan))
        },
        None => None,
    }
}

/// The input of a plan for one packet, for an epoch of 200 milliseconds.
pub fn epoch_input(inp: &PickInput) -> (r: EpochInput)
    ensures
        r@ == epoch_of(*inp),
{
    let r = EpochInput {
        now_ms: inp.now_ms,
        epoch_ms: 200,
        packet_len_hint: inp.packet_len,
        paths: inp.paths.clone(),
        prev_weights: None,
    };
    assert(r@.paths =~= inp.paths@);
    r
}

/// The heaviest of some weights, the last one of several.
pub fn heaviest_weight(weights: &Vec<PathWeight>) -> (r: PathWeight)
    requires
        weights.len() > 0,
    ensures
        r == heaviest(weights@),
{
    let mut best = weights[0];
    let mut i: usize = 1;
    assert(weights@.take(1)[0] == weights@[0]);
    while i < weights.len()
        invariant
            1 <= i <= weights.len(),
            best == heaviest(weights@.take(i as int)),
        decreases weights.len() - i,
    {
        let w = weights[i];
        proof {
            assert(weights@.take(i + 1).drop_last() =~= weights@.take(i as int));
        }
        if !w.weight.lt(&best.weight) {
            best = w;
        }
        i = i + 1;
    }
    assert(weights@.take(i as int) =~= weights@);
    best
}

/// Whether some path has been idle for long enough.
pub fn any_idle(cfg: &Config, paths: &Vec<PathSnapshot>) -> (r: bool)
    ensures
        r == idle_burst(*cfg, paths@),
{
    let mut i: usize = 0;
    while i < paths.len()
        invariant
            i <= paths.len(),
            forall|j: int| 0 <= j < i ==> (#[trigger] paths@[j]).last_tx_age_ms < cfg.idle_burst_ms,
        decreases paths.len() - i,
    {
        if paths[i].last_tx_age_ms >= cfg.idle_burst_ms {
            return true;
        }
        i = i + 1;
    }
    false
}

/// The path of a pair that carries the second copy.
pub fn pick_partner(weights: &Vec<PathWeight>, pair: (PathId, PathId), primary: PathId) -> (r:
    Option<PathId>)
    ensures
        r == partner(weights@, pair, primary),
{
    let (a, b) = pair;
    if a != primary && b != primary {
        let wa = weight_or_default(weights, a);
        let wb = weight_or_default(weights, b);
        Some(
            if wb.le(&wa) {
                a
            } else {
                b
            },
        )
    } else if b != primary {
        Some(b)
    } else if a != primary {
        Some(a)
    } else {
        None
    }
}

/// The decision for a packet under a plan.
pub fn decide(cfg: &Config, inp: &PickInput, plan: &EpochPlan) -> (r: Decision)
    requires
        plan.lb_weights.len() > 0,
    ensures
        r == decision_for(*cfg, *inp, plan@),
{
    let primary = heaviest_weight(&plan.lb_weights).id;
    let trigger: bool = inp.flow_bytes_sent <= cfg.short_flow_thresh || any_idle(cfg, &inp.paths)
        || inp.critical;
    let redundant = if trigger {
        match plan.redundancy {
            RedundancyMode::ShortIdleCritical { pair, .. } => pick_partner(
                &plan.lb_weights,
                pair,
                primary,
            ),
            RedundancyMode::Percentage { pair, .. } => pick_partner(
                &plan.lb_weights,
                pair,
                primary,
            ),
            RedundancyMode::Off => None,
        }
    } else {
        None
    };
    Decision { primary, redundant }
}

impl Scheduler {
    /// The paths for one packet: the heaviest path of the plan, and for packets that may be
    /// sent twice the partner that the plan names. `gates` is as for
    /// [`Scheduler::compute_plan`] on [`epoch_input`].
    pub fn pick_path(&self, inp: &PickInput, gates: &Vec<F64>) -> (r: Option<Decision>)
        requires
            gates.len() == inp.paths.len(),
            budget_defined(self.cfg, epoch_of(*inp)),
            usable_of(self.cfg, epoch_of(*inp)).len() > 0 ==> inp.now_ms + 200 <= u64::MAX,
        ensures
            r == pick_for(self.cfg, *inp, gates@),
    {
        let epoch = epoch_input(inp);
        match self.compute_plan(&epoch, gates) {
            None => None,
            Some(plan) => if plan.lb_weights.len() == 0 {
                None
            } else {
                Some(decide(&self.cfg, inp, &plan))
            },
        }
    }
}

} // verus!
