//! Guards on a list of scored candidates: the reordering filter, the queueing penalty and
//! the choice of a redundant path.
use vstd::prelude::*;

use crate::multipath_scheduler::candidate::{by_eta, sort_by_eta, Candidate};
use crate::multipath_scheduler::pick::{any_idle, triggered};
use crate::multipath_scheduler::plan::{budget_behind, reorder_budget};
use crate::multipath_scheduler::{Config, PathId, PickInput, Scheduler};
use crate::num::double::{fraction, of_whole, F64};

verus! {

/// The candidate arrives within the reordering budget behind the fastest.
pub open spec fn in_budget(cfg: Config, fastest: Candidate, c: Candidate) -> bool {
    c.eta_ms.at_most(
        fastest.eta_ms.sum(reorder_budget(cfg, fastest)).sum(fraction(1, 1_000_000)),
    )
}

/// The candidates within the reordering budget, in order of arrival; the fastest alone if
/// there are none.
pub open spec fn within_budget(cfg: Config, cs: Seq<Candidate>) -> Seq<Candidate> {
    let sorted = by_eta(cs);
    let kept = sorted.filter(|c: Candidate| in_budget(cfg, sorted[0], c));
    if cs.len() == 0 {
        seq![]
    } else if kept.len() == 0 {
        seq![sorted[0]]
    } else {
        kept
    }
}

/// Some candidate's queueing delay meets the target.
pub open spec fn any_under_target(cfg: Config, cs: Seq<Candidate>) -> bool {
    exists|i: int|
        0 <= i < cs.len() && (#[trigger] cs[i]).queue_delay_ms.at_most(
            of_whole(cfg.target_qdelay_ms as nat),
        )
}

/// The candidate with the penalty for queueing beyond the target.
pub open spec fn penalized(cfg: Config, c: Candidate) -> Candidate {
    let target = of_whole(cfg.target_qdelay_ms as nat);
    if target.less(c.queue_delay_ms) {
        Candidate {
            score: c.score.diff(cfg.w4_qdelay.prod(c.queue_delay_ms.diff(target))),
            ..c
        }
    } else {
        c
    }
}

/// The path for a second copy: the second to arrive, if it arrives beyond the reordering
/// budget; the third under the same condition if the second is the first choice itself.
pub open spec fn redundant_path(cfg: Config, inp: PickInput, cs: Seq<Candidate>) -> Option<PathId> {
    let sorted = by_eta(cs);
    let budget = reorder_budget(cfg, sorted[0]);
    if cs.len() < 2 || !triggered(cfg, inp) {
        None
    } else if !budget.less(sorted[1].eta_ms.diff(sorted[0].eta_ms)) {
        None
    } else if sorted[1].id != cs[0].id {
        Some(sorted[1].id)
    } else if cs.len() > 2 && budget.less(sorted[2].eta_ms.diff(sorted[0].eta_ms)) {
        Some(sorted[2].id)
    } else {
        None
    }
}

impl Scheduler {
    /// Keeps the candidates that arrive within the reordering budget behind the fastest.
    pub fn apply_blest_filter(&self, cfg: &Config, cs: &Vec<Candidate>) -> (r: Vec<Candidate>)
        requires
            cs.len() > 0 ==> cfg.blest_delta_cap_ms >= 4,
        ensures
            r@ == within_budget(*cfg, cs@),
            cs.len() > 0 ==> r.len() > 0,
    {
        if cs.len() == 0 {
            return Vec::new();
        }
        let sorted = sort_by_eta(cs);
        let fastest = sorted[0];
        let limit = fastest.eta_ms.plus(&budget_behind(cfg, &fastest)).plus(
            &F64::ratio(1, 1_000_000),
        );
        let mut kept: Vec<Candidate> = Vec::new();
        let ghost pass = |c: Candidate| in_budget(*cfg, sorted@[0], c);
        let mut i: usize = 0;
        assert(sorted@.take(0).filter(pass) =~= seq![]) by {
            reveal(Seq::filter);
        }
        while i < sorted.len()
            invariant
                i <= sorted.len(),
                sorted.len() > 0,
                pass == (|c: Candidate| in_budget(*cfg, sorted@[0], c)),
                limit == sorted@[0].eta_ms.sum(reorder_budget(*cfg, sorted@[0])).sum(
                    fraction(1, 1_000_000),
                ),
                kept@ == sorted@.take(i as int).filter(pass),
            decreases sorted.len() - i,
        {
            let c = sorted[i];
            proof {
                reveal(Seq::filter);
                assert(sorted@.take(i + 1).drop_last() =~= sorted@.take(i as int));
            }
            if c.eta_ms.le(&limit) {
                kept.push(c);
            }
            i = i + 1;
        }
        assert(sorted@.take(i as int) =~= sorted@);
        if kept.len() == 0 {
            kept.push(fastest);
        }
        kept
    }

    /// Lowers the scores of candidates whose queueing delay is beyond the target, unless all
    /// of them are.
    pub fn apply_qaware_penalty(&self, cfg: &Config, cs: &mut Vec<Candidate>)
        ensures
            final(cs).len() == old(cs).len(),
            forall|i: int|
                0 <= i < old(cs).len() ==> #[trigger] final(cs)@[i] == if any_under_target(
                    *cfg,
                    old(cs)@,
                ) {
                    penalized(*cfg, old(cs)@[i])
                } else {
                    old(cs)@[i]
                },
    {
        let target = F64::from_u64(cfg.target_qdelay_ms as u64);
        let mut any: bool = false;
        let mut k: usize = 0;
        while k < cs.len()
            invariant
                k <= cs.len(),
                *cs == *old(cs),
                target == of_whole(cfg.target_qdelay_ms as nat),
                any == any_under_target(*cfg, cs@.take(k as int)),
            decreases cs.len() - k,
        {
            proof {
                let (a, b) = (cs@.take(k as int), cs@.take(k + 1));
                assert(forall|i: int| 0 <= i < k ==> #[trigger] a[i] == b[i]);
                assert(b[k as int] == cs@[k as int]);
                if any_under_target(*cfg, a) {
                    let i = choose|i: int|
                        0 <= i < a.len() && (#[trigger] a[i]).queue_delay_ms.at_most(target);
                    assert(b[i].queue_delay_ms.at_most(target));
                }
            }
            if cs[k].queue_delay_ms.le(&target) {
                any = true;
            }
            k = k + 1;
        }
        assert(cs@.take(k as int) =~= cs@);
        if !any {
            return ;
        }
        let mut i: usize = 0;
        while i < cs.len()
            invariant
                i <= cs.len(),
                cs.len() == old(cs).len(),
                target == of_whole(cfg.target_qdelay_ms as nat),
                forall|j: int| 0 <= j < i ==> #[trigger] cs@[j] == penalized(*cfg, old(cs)@[j]),
                forall|j: int| i <= j < cs.len() ==> #[trigger] cs@[j] == old(cs)@[j],
            decreases cs.len() - i,
        {
            let mut c = cs[i];
            if target.lt(&c.queue_delay_ms) {
                let excess = c.queue_delay_ms.minus(&target);
                c.score = c.score.minus(&cfg.w4_qdelay.times(&excess));
            }
            cs.set(i, c);
            i = i + 1;
        }
    }

    /// The path for a second copy of a packet, beside the first of the candidates.
    pub fn decide_redundancy(&self, cfg: &Config, inp: &PickInput, cs: &Vec<Candidate>) -> (r: Option<
        PathId,
    >)
        requires
            cs.len() >= 2 && triggered(*cfg, *inp) ==> cfg.blest_delta_cap_ms >= 4,
        ensures
            r == redundant_path(*cfg, *inp, cs@),
    {
        if cs.len() < 2 {
            return None;
        }
        let trigger: bool = inp.flow_bytes_sent <= cfg.short_flow_thresh || any_idle(
            cfg,
            &inp.paths,
        ) || inp.critical;
        if !trigger {
            return None;
        }
        let sorted = sort_by_eta(cs);
        let budget = budget_behind(cfg, &sorted[0]);
        let gap = sorted[1].eta_ms.minus(&sorted[0].eta_ms);
        if !budget.lt(&gap) {
            None
        } else if sorted[1].id != cs[0].id {
            Some(sorted[1].id)
        } else if sorted.len() > 2 && budget.lt(&sorted[2].eta_ms.minus(&sorted[0].eta_ms)) {
            Some(sorted[2].id)
        } else {
            None
        }
    }
}

} // verus!
