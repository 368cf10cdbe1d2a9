//! What the guards on a list of candidates let through, by the times of arrival.
use vstd::prelude::*;

use crate::multipath_scheduler::candidate::{by_eta, in_order, inserted, Candidate};
use crate::multipath_scheduler::copies::deserves_a_copy;
use crate::multipath_scheduler::guards::{
    any_under_target, in_budget, redundant_path, within_budget,
};
use crate::multipath_scheduler::plan::reorder_budget;
use crate::multipath_scheduler::{Config, PickInput};
use crate::num::bounds::{lemma_order, lemma_sum_above, lemma_sum_pattern, lemma_units_at_least};
use crate::num::close::{
    lemma_close_scale, lemma_close_sum, lemma_close_trans, lemma_fraction_close, lemma_large_one,
    lemma_sum_close, parts,
};
use crate::num::double::{fraction, lemma_double, lemma_mag_order, of_whole};
use crate::num::exact::{lemma_whole_exact, one};

verus! {

/// A candidate that arrives by the end of the budget passes, and one that arrives more than a
/// millionth of a millisecond later does not. Between the two, rounding decides.
pub proof fn law_timely_candidates_pass(cfg: Config, fastest: Candidate, c: Candidate)
    requires
        c.eta_ms.plain(),
        fastest.eta_ms.plain(),
        reorder_budget(cfg, fastest).plain(),
        fastest.eta_ms.mag() <= 0x1_0000_0000_0000_0000_0000_0000_0000_0000_0000 * one(),
        reorder_budget(cfg, fastest).mag() <= 0x1_0000_0000_0000_0000 * one(),
    ensures
        ({
            let limit = fastest.eta_ms.value() + reorder_budget(cfg, fastest).value();
            &&& c.eta_ms.value() <= limit ==> in_budget(cfg, fastest, c)
            &&& parts() * (1_000_000 * c.eta_ms.value()) > (parts() + 8) * (1_000_000 * limit
                + one()) ==> !in_budget(cfg, fastest, c)
        }),
{
    lemma_double();
    lemma_large_one();
    lemma_fraction_close(1, 1_000_000);
    let k = one() as int;
    let b = reorder_budget(cfg, fastest);
    let s = fastest.eta_ms.sum(b);
    let f = fraction(1, 1_000_000);
    let limit = fastest.eta_ms.value() + b.value();
    lemma_sum_close(fastest.eta_ms, b);
    lemma_sum_close(s, f);
    lemma_sum_above(s, f);
    let t = s.sum(f);
    lemma_order(c.eta_ms, t);
    lemma_mag_order(t, c.eta_ms);
    if c.eta_ms.value() <= limit {
        lemma_sum_pattern(fastest.eta_ms, b);
        lemma_units_at_least(limit as nat, c.eta_ms.low());
    }
    let (x, y, z) = (s.value(), f.value(), t.value());
    lemma_close_scale(x, limit, 1, 1_000_000);
    lemma_close_sum(1_000_000 * x, 1_000_000 * limit, 1_000_000 * y, k, 1);
    lemma_close_scale(z, x + y, 1, 1_000_000);
    lemma_close_trans(
        1_000_000 * z,
        1_000_000 * (x + y),
        1,
        1_000_000 * limit + k,
        1,
    );
}

proof fn lemma_inserted_order(sorted: Seq<Candidate>, c: Candidate)
    requires
        in_order(sorted),
    ensures
        in_order(inserted(sorted, c)),
        inserted(sorted, c).to_multiset() == sorted.to_multiset().insert(c),
        inserted(sorted, c).len() == sorted.len() + 1,
    decreases sorted.len(),
{
    broadcast use vstd::seq_lib::group_to_multiset_ensures;

    if sorted.len() == 0 || sorted.last().eta_ms.rank() <= c.eta_ms.rank() {
        let r = sorted.push(c);
        assert forall|i: int, j: int| 0 <= i < j < r.len() implies (
        #[trigger] r[i]).eta_ms.rank() <= (#[trigger] r[j]).eta_ms.rank() by {
            if j == sorted.len() && i < sorted.len() - 1 {
                assert(sorted[i].eta_ms.rank() <= sorted[sorted.len() - 1].eta_ms.rank());
            }
        }
    } else {
        let front = sorted.drop_last();
        let last = sorted.last();
        lemma_inserted_order(front, c);
        let s = inserted(front, c);
        let r = s.push(last);
        assert(sorted =~= front.push(last));
        assert forall|i: int| 0 <= i < s.len() implies (#[trigger] s[i]).eta_ms.rank()
            <= last.eta_ms.rank() by {
            assert(s.contains(s[i]));
            assert(s.to_multiset().count(s[i]) > 0);
            if s[i] != c {
                assert(front.to_multiset().count(s[i]) > 0);
                assert(front.contains(s[i]));
                let k = choose|k: int| 0 <= k < front.len() && front[k] == s[i];
                assert(sorted[k].eta_ms.rank() <= sorted[sorted.len() - 1].eta_ms.rank());
            }
        }
        assert(r.to_multiset() =~= sorted.to_multiset().insert(c));
    }
}

/// Sorting any candidates by their time of arrival rearranges them and puts earlier arrivals
/// first.
pub proof fn law_sorting_is_by_arrival(cs: Seq<Candidate>)
    ensures
        by_eta(cs).len() == cs.len(),
        by_eta(cs).to_multiset() == cs.to_multiset(),
        in_order(by_eta(cs)),
    decreases cs.len(),
{
    broadcast use vstd::seq_lib::group_to_multiset_ensures;

    if cs.len() == 0 {
        assert(by_eta(cs) =~= cs);
    } else {
        let front = cs.drop_last();
        law_sorting_is_by_arrival(front);
        lemma_inserted_order(by_eta(front), cs.last());
        assert(cs =~= front.push(cs.last()));
        assert(by_eta(cs).to_multiset() =~= cs.to_multiset());
    }
}

/// What passes a filter stays in order.
proof fn lemma_filter_order(s: Seq<Candidate>, pass: spec_fn(Candidate) -> bool)
    requires
        in_order(s),
    ensures
        in_order(s.filter(pass)),
        forall|i: int| 0 <= i < s.filter(pass).len() ==> s.contains(#[trigger] s.filter(pass)[i]),
    decreases s.len(),
{
    reveal(Seq::filter);
    if s.len() > 0 {
        let front = s.drop_last();
        lemma_filter_order(front, pass);
        let (f, g) = (s.filter(pass), front.filter(pass));
        assert forall|i: int| 0 <= i < f.len() implies s.contains(#[trigger] f[i]) by {
            if i < g.len() {
                let k = choose|k: int| 0 <= k < front.len() && front[k] == g[i];
                assert(s[k] == f[i]);
            } else {
                assert(s[s.len() - 1] == f[i]);
            }
        }
        assert forall|i: int, j: int| 0 <= i < j < f.len() implies (
        #[trigger] f[i]).eta_ms.rank() <= (#[trigger] f[j]).eta_ms.rank() by {
            assert(g[i] == f[i]);
            if j < g.len() {
                assert(g[j] == f[j]);
            } else {
                let k = choose|k: int| 0 <= k < front.len() && front[k] == g[i];
                assert(s[k].eta_ms.rank() <= s[s.len() - 1].eta_ms.rank());
            }
        }
    }
}

/// The reordering filter hands its candidates on in order of arrival.
pub proof fn law_filtered_candidates_are_in_order(cfg: Config, cs: Seq<Candidate>)
    ensures
        in_order(within_budget(cfg, cs)),
{
    law_sorting_is_by_arrival(cs);
    let sorted = by_eta(cs);
    if cs.len() > 0 {
        lemma_filter_order(sorted, |c: Candidate| in_budget(cfg, sorted[0], c));
    }
}

/// No two candidates arrive together.
pub open spec fn apart(cs: Seq<Candidate>) -> bool {
    forall|i: int, j: int|
        0 <= i < j < cs.len() ==> (#[trigger] cs[i]).eta_ms.rank() != (
        #[trigger] cs[j]).eta_ms.rank()
}

/// The candidate at the place `a` arrives before all but `before`.
pub open spec fn next_to_arrive(cs: Seq<Candidate>, before: Set<int>, a: int) -> bool {
    &&& 0 <= a < cs.len()
    &&& !before.contains(a)
    &&& forall|k: int|
        0 <= k < cs.len() && k != a && !before.contains(k) ==> cs[a].eta_ms.rank() < (
        #[trigger] cs[k]).eta_ms.rank()
}

/// The candidates that arrive next stand next in order.
proof fn lemma_order_of_arrival(cs: Seq<Candidate>, a: int, b: int, c: int)
    requires
        apart(cs),
        next_to_arrive(cs, Set::empty(), a),
        next_to_arrive(cs, Set::empty().insert(a), b),
    ensures
        by_eta(cs).len() == cs.len(),
        by_eta(cs)[0] == cs[a],
        by_eta(cs)[1] == cs[b],
        next_to_arrive(cs, Set::empty().insert(a).insert(b), c) ==> by_eta(cs)[2] == cs[c],
{
    broadcast use vstd::seq_lib::group_to_multiset_ensures;

    law_sorting_is_by_arrival(cs);
    let s = by_eta(cs);
    assert(cs.no_duplicates()) by {
        assert forall|i: int, j: int| 0 <= i < cs.len() && 0 <= j < cs.len() && i
            != j implies cs[i] != cs[j] by {
            if i < j {
                assert(cs[i].eta_ms.rank() != cs[j].eta_ms.rank());
            } else {
                assert(cs[j].eta_ms.rank() != cs[i].eta_ms.rank());
            }
        }
    }
    cs.lemma_multiset_has_no_duplicates();
    s.lemma_multiset_has_no_duplicates_conv();
    assert forall|i: int| 0 <= i < s.len() implies cs.contains(#[trigger] s[i]) by {
        assert(s.contains(s[i]));
        assert(s.to_multiset().count(s[i]) > 0);
        assert(cs.to_multiset().count(s[i]) > 0);
    }
    assert forall|i: int| 0 <= i < cs.len() implies s.contains(#[trigger] cs[i]) by {
        assert(cs.contains(cs[i]));
        assert(cs.to_multiset().count(cs[i]) > 0);
        assert(s.to_multiset().count(cs[i]) > 0);
    }
    // the first
    let k0 = choose|k: int| 0 <= k < cs.len() && cs[k] == s[0];
    let pa = choose|p: int| 0 <= p < s.len() && s[p] == cs[a];
    assert(cs.contains(s[0]) && s.contains(cs[a]));
    assert(s[0].eta_ms.rank() <= s[pa].eta_ms.rank());
    assert(k0 == a) by {
        if k0 != a {
            assert(cs[a].eta_ms.rank() < cs[k0].eta_ms.rank());
        }
    }
    // the second
    assert(s.len() >= 2);
    let k1 = choose|k: int| 0 <= k < cs.len() && cs[k] == s[1];
    let pb = choose|p: int| 0 <= p < s.len() && s[p] == cs[b];
    assert(cs.contains(s[1]) && s.contains(cs[b]));
    assert(s[0] != s[1]);
    assert(k1 != a);
    assert(cs[a] != cs[b]);
    assert(pb != 0);
    assert(s[1].eta_ms.rank() <= s[pb].eta_ms.rank());
    assert(k1 == b) by {
        if k1 != b {
            assert(!Set::<int>::empty().insert(a).contains(k1));
            assert(cs[b].eta_ms.rank() < cs[k1].eta_ms.rank());
        }
    }
    // the third
    if next_to_arrive(cs, Set::empty().insert(a).insert(b), c) {
        assert(c != a && c != b);
        let pc = choose|p: int| 0 <= p < s.len() && s[p] == cs[c];
        assert(s.contains(cs[c]));
        assert(cs[c] != cs[a] && cs[c] != cs[b]);
        assert(pc != 0 && pc != 1);
        let k2 = choose|k: int| 0 <= k < cs.len() && cs[k] == s[2];
        assert(cs.contains(s[2]));
        assert(s[2] != s[0] && s[2] != s[1]);
        assert(s[2].eta_ms.rank() <= s[pc].eta_ms.rank());
        assert(k2 != a && k2 != b);
        assert(k2 == c) by {
            if k2 != c {
                assert(!Set::<int>::empty().insert(a).insert(b).contains(k2));
                assert(cs[c].eta_ms.rank() < cs[k2].eta_ms.rank());
            }
        }
    }
}

/// The candidate arrives beyond the budget behind the fastest.
pub open spec fn far_behind(cfg: Config, fastest: Candidate, c: Candidate) -> bool {
    reorder_budget(cfg, fastest).less(c.eta_ms.diff(fastest.eta_ms))
}

/// A packet that deserves a second copy gets it over the second to arrive, if that is beyond the
/// budget behind the first. Where that is the first choice itself, the third to arrive takes its
/// place, if it is beyond the budget too. No other packet gets one.
pub proof fn law_second_copies_go_to_the_next_to_arrive(
    cfg: Config,
    inp: PickInput,
    cs: Seq<Candidate>,
    a: int,
    b: int,
    c: int,
)
    requires
        apart(cs),
        next_to_arrive(cs, Set::empty(), a),
        next_to_arrive(cs, Set::empty().insert(a), b),
        cs.len() > 2 ==> next_to_arrive(cs, Set::empty().insert(a).insert(b), c),
    ensures
        ({
            let r = redundant_path(cfg, inp, cs);
            let second = far_behind(cfg, cs[a], cs[b]);
            &&& !deserves_a_copy(cfg, inp) ==> r is None
            &&& !second ==> r is None
            &&& deserves_a_copy(cfg, inp) && second && cs[b].id != cs[0].id ==> r == Some(cs[b].id)
            &&& deserves_a_copy(cfg, inp) && second && cs[b].id == cs[0].id ==> r == if cs.len() > 2
                && far_behind(cfg, cs[a], cs[c]) {
                Some(cs[c].id)
            } else {
                None
            }
        }),
{
    lemma_order_of_arrival(cs, a, b, c);
}

/// Penalties are only given where some candidate's queueing delay is not above the target.
pub proof fn law_penalties_need_a_candidate_under_the_target(cfg: Config, cs: Seq<Candidate>)
    requires
        forall|i: int| 0 <= i < cs.len() ==> (#[trigger] cs[i]).queue_delay_ms.plain(),
    ensures
        any_under_target(cfg, cs) <==> exists|i: int|
            0 <= i < cs.len() && (#[trigger] cs[i]).queue_delay_ms.value() <= cfg.target_qdelay_ms
                * one(),
{
    lemma_whole_exact(cfg.target_qdelay_ms as nat);
    let t = of_whole(cfg.target_qdelay_ms as nat);
    assert forall|i: int| 0 <= i < cs.len() implies ((
    #[trigger] cs[i]).queue_delay_ms.at_most(t) <==> cs[i].queue_delay_ms.value()
        <= cfg.target_qdelay_ms * one()) by {
        assert(cs[i].queue_delay_ms.plain());
    }
}

} // verus!
