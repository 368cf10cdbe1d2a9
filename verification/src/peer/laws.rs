//! What holds of the routes to a peer.
use vstd::prelude::*;

use crate::multipath_scheduler::laws::{
    law_plans_are_over_usable_paths, law_redundancy_is_over_the_two_fastest, lemma_places_differ,
    lemma_ranked, usable_id,
};
use crate::multipath_scheduler::plan::{plan_for, ranked_candidates, shares, total};
use crate::multipath_scheduler::weights::{
    all_plain, exact_sum, lemma_parts_finite, lemma_shares_add_up, lemma_total_error,
    lemma_total_finite, unit,
};
use crate::multipath_scheduler::{PathId, PathSnapshot, PathWeight, Plan};
use crate::num::bounds::{lemma_order, lemma_sum_above, lemma_sum_pattern, lemma_units_error};
use crate::num::double::{lemma_mag_order, of_whole, signed, F64};
use crate::num::exact::one;
use crate::num::facts::lemma_zero_one;
use crate::peer::routes::{
    conn_of, conns_of_pair, cumulated, default_ids, drawable, drawn, pair_of, seconds_of,
    selector_for, topmost, weighted_conns, PeerConnId, RedundancyState,
};
use crate::peer::{snapshots, Known};

verus! {

/// A draw hits the first entry whose cumulated weight reaches the number drawn, or the last.
pub proof fn law_draws_hit_an_entry(entries: Seq<(PeerConnId, F64)>, x: F64) -> (i: int)
    requires
        entries.len() > 0,
    ensures
        0 <= i < entries.len(),
        drawn(entries, x) == entries[i].0,
        forall|j: int| 0 <= j < i ==> !x.at_most((#[trigger] entries[j]).1),
        i < entries.len() - 1 ==> x.at_most(entries[i].1),
    decreases entries.len(),
{
    if entries.len() == 1 || x.at_most(entries[0].1) {
        0
    } else {
        let rest = entries.drop_first();
        let k = law_draws_hit_an_entry(rest, x);
        assert forall|j: int| 0 <= j < k + 1 implies !x.at_most((#[trigger] entries[j]).1) by {
            if j > 0 {
                assert(rest[j - 1] == entries[j]);
            }
        }
        k + 1
    }
}

/// A connection of one of the paths.
pub open spec fn among(paths: Seq<(PeerConnId, PathSnapshot)>, conn: PeerConnId) -> bool {
    exists|k: int| 0 <= k < paths.len() && (#[trigger] paths[k]).0 == conn
}

/// The connection found for a path is one of the connections, and its path has that identifier.
proof fn lemma_conn_of(paths: Seq<(PeerConnId, PathSnapshot)>, id: PathId)
    ensures
        conn_of(paths, id) matches Some(c) ==> exists|k: int|
            0 <= k < paths.len() && (#[trigger] paths[k]).0 == c && paths[k].1.id == id,
        conn_of(paths, id) is None ==> forall|k: int|
            0 <= k < paths.len() ==> (#[trigger] paths[k]).1.id != id,
    decreases paths.len(),
{
    if paths.len() > 0 {
        if paths[0].1.id != id {
            let rest = paths.drop_first();
            lemma_conn_of(rest, id);
            if conn_of(rest, id) is Some {
                let k = choose|k: int|
                    0 <= k < rest.len() && (#[trigger] rest[k]).0 == conn_of(rest, id).unwrap()
                        && rest[k].1.id == id;
                assert(paths[k + 1] == rest[k]);
            } else {
                assert forall|k: int| 0 <= k < paths.len() implies (#[trigger] paths[k]).1.id
                    != id by {
                    if k > 0 {
                        assert(rest[k - 1] == paths[k]);
                    }
                }
            }
        }
    }
}

/// Entries have positive weights and connections of the paths.
pub proof fn lemma_weighted_conns(weights: Seq<PathWeight>, paths: Seq<(PeerConnId, PathSnapshot)>)
    ensures
        forall|i: int|
            0 <= i < weighted_conns(weights, paths).len() ==> {
                let e = #[trigger] weighted_conns(weights, paths)[i];
                e.1.nonneg() && e.1.low() > 0 && among(paths, e.0)
            },
    decreases weights.len(),
{
    if weights.len() > 0 {
        let front = weights.drop_last();
        lemma_weighted_conns(front, paths);
        let before = weighted_conns(front, paths);
        let all = weighted_conns(weights, paths);
        let last = weights.last();
        lemma_conn_of(paths, last.id);
        lemma_drawable(last.weight);
        assert forall|i: int| 0 <= i < all.len() implies {
            let e = #[trigger] all[i];
            e.1.nonneg() && e.1.low() > 0 && among(paths, e.0)
        } by {
            if i < before.len() {
                assert(all[i] == before[i]);
            }
        }
    }
}

proof fn lemma_drawable(w: F64)
    ensures
        !drawable(w).at_most(signed(false, 0)) ==> drawable(w).nonneg() && drawable(w).low() > 0,
{
    let zero = signed(false, 0);
    lemma_mag_order(w, zero);
    lemma_mag_order(zero, w);
    lemma_mag_order(zero, zero);
}

/// How much the cumulated weight grows at an entry.
pub open spec fn step(es: Seq<(PeerConnId, F64)>, i: int) -> int {
    if i == 0 {
        es[i].1.value()
    } else {
        es[i].1.value() - es[i - 1].1.value()
    }
}

/// The rounding error of a step between `n` cumulated weights: `9 * n + 6` parts in 2^53.
pub open spec fn slack(n: nat) -> nat {
    (9 * n + 6) * one()
}

/// The table that connections are drawn from holds connections of the paths. Each cumulated
/// weight exceeds the one before by the share of its connection, but for rounding, so that the
/// weights strictly increase wherever a share is larger than the rounding error. Before the last
/// they never fall. The last is one, and the one before it is no larger, but for rounding.
pub proof fn law_selectors_are_cumulative(plan: Plan, paths: Seq<(PeerConnId, PathSnapshot)>)
    requires
        plan.weights.len() <= 0x4_0000_0000_0000,
        total(seconds_of(weighted_conns(plan.weights, paths))).finite(),
    ensures
        selector_for(plan, paths) matches Some(es) ==> {
            let ws = seconds_of(weighted_conns(plan.weights, paths));
            let parts = shares(ws, total(ws));
            let n = es.len();
            let u = 0x20_0000_0000_0000int;
            &&& n > 0
            &&& parts.len() == n
            &&& es.last().1 == of_whole(1)
            &&& forall|i: int| 0 <= i < n ==> among(paths, (#[trigger] es[i]).0)
            &&& forall|i: int, j: int|
                0 <= i <= j < n - 1 ==> (#[trigger] es[i]).1.plain() && es[i].1.at_most(
                    (#[trigger] es[j]).1,
                )
            &&& forall|i: int|
                0 <= i < n ==> {
                    &&& u * (#[trigger] step(es, i) - parts[i].value()) <= slack(n)
                    &&& u * (parts[i].value() - step(es, i)) <= slack(n)
                    &&& u * parts[i].value() > slack(n) ==> step(es, i) > 0
                }
            &&& n >= 2 ==> u * (es[n - 2].1.value() - es[n - 1].1.value()) <= slack(n)
        },
{
    let entries = weighted_conns(plan.weights, paths);
    let ws = seconds_of(entries);
    lemma_weighted_conns(plan.weights, paths);
    lemma_entries_count(plan.weights, paths);
    lemma_parts_finite(ws);
    assert forall|i: int| 0 <= i < ws.len() implies (#[trigger] ws[i]).plain() by {
        assert(ws[i] == entries[i].1);
        assert(ws[i].finite());
    }
    assert(all_plain(ws));
    if selector_for(plan, paths) is Some {
        let es = selector_for(plan, paths).unwrap();
        let parts = shares(ws, total(ws));
        let n = es.len();
        let u = 0x20_0000_0000_0000int;
        lemma_shares_add_up(ws);
        assert forall|i: int| 0 <= i < n implies among(paths, (#[trigger] es[i]).0) by {
            assert(es[i].0 == entries[i].0);
        }
        assert forall|i: int, j: int| 0 <= i <= j < n - 1 implies (#[trigger] es[i]).1.plain()
            && es[i].1.at_most((#[trigger] es[j]).1) by {
            lemma_prefixes_grow(parts, i + 1, j + 1);
        }
        assert forall|i: int| 0 <= i < n implies {
            &&& u * (#[trigger] step(es, i) - parts[i].value()) <= slack(n)
            &&& u * (parts[i].value() - step(es, i)) <= slack(n)
            &&& u * parts[i].value() > slack(n) ==> step(es, i) > 0
        } by {
            lemma_step(ws, i);
            assert(parts.take(0) =~= seq![]);
            lemma_zero_one();
        }
        if n >= 2 {
            assert(unit(parts[n - 1]));
            assert(step(es, n - 1) == es[n - 1].1.value() - es[n - 2].1.value());
        }
    }
}

/// The step from the sum of the first `i` shares to that of one more, or to one for the last.
proof fn lemma_step(ws: Seq<F64>, i: int)
    requires
        all_plain(ws),
        total(ws).finite(),
        signed(false, 0).less(total(ws)),
        ws.len() <= 0x4_0000_0000_0000,
        0 <= i < ws.len(),
    ensures
        ({
            let parts = shares(ws, total(ws));
            let (t, p) = (total(parts.take(i)).value(), parts[i].value());
            let r = if i == ws.len() - 1 {
                of_whole(1).value()
            } else {
                total(parts.take(i + 1)).value()
            };
            &&& 0x20_0000_0000_0000 * (r - t - p) <= slack(ws.len())
            &&& 0x20_0000_0000_0000 * (t + p - r) <= slack(ws.len())
            &&& p >= 0
        }),
{
    lemma_zero_one();
    let parts = shares(ws, total(ws));
    lemma_shares_add_up(ws);
    let (a, b) = (parts.take(i), parts.take(i + 1));
    assert(b.drop_last() =~= a);
    assert(b.last() == parts[i]);
    assert(unit(parts[i]));
    lemma_prefix_plain(parts, i);
    lemma_prefix_plain(parts, i + 1);
    assert forall|k: int| 0 <= k < a.len() implies (#[trigger] a[k]).plain() by {
        assert(a[k] == parts[k] && unit(parts[k]));
    }
    lemma_total_error(a);
    lemma_exact_prefix(parts, i + 1);
    lemma_order(parts[i], of_whole(1));
    lemma_mag_order(parts[i], of_whole(1));
    let u = 0x20_0000_0000_0000int;
    let (n, c) = (ws.len() as int, one() as int);
    let (t, s, p) = (total(a).mag() as int, exact_sum(a), parts[i].mag() as int);
    let x = exact_sum(parts);
    assert(x <= 2 * c) by (nonlinear_arith)
        requires
            u * (x - c) <= (5 * n + 2) * c,
            u == 0x20_0000_0000_0000,
            0 <= n <= 0x4_0000_0000_0000,
            c >= 0,
    ;
    let e = 2 * i * s;
    assert(2 * a.len() * s == e);
    assert(0 <= e <= (4 * n) * c) by (nonlinear_arith)
        requires
            e == 2 * i * s,
            0 <= i <= n,
            0 <= s <= 2 * c,
    ;
    assert(t <= 4 * c) by (nonlinear_arith)
        requires
            u * (t - s) <= e,
            e <= (4 * n) * c,
            s <= 2 * c,
            u == 0x20_0000_0000_0000,
            0 <= n <= 0x4_0000_0000_0000,
            c >= 0,
    ;
    assert((4 * n) * c + (5 * n + 2) * c <= (9 * n + 6) * c && 5 * c <= (9 * n + 6) * c)
        by (nonlinear_arith)
        requires
            n >= 0,
            c >= 0,
    ;
    if i == ws.len() - 1 {
        assert(b =~= parts);
    } else {
        lemma_sum_pattern(total(a), parts[i]);
        lemma_units_error((t + p) as nat);
    }
}

/// The exact sum of the first shares is no larger than that of all.
proof fn lemma_exact_prefix(parts: Seq<F64>, i: int)
    requires
        forall|k: int| 0 <= k < parts.len() ==> unit(#[trigger] parts[k]),
        0 <= i <= parts.len(),
    ensures
        exact_sum(parts.take(i)) <= exact_sum(parts),
    decreases parts.len(),
{
    if i == parts.len() {
        assert(parts.take(i) =~= parts);
    } else {
        let front = parts.drop_last();
        assert forall|k: int| 0 <= k < front.len() implies unit(#[trigger] front[k]) by {
            assert(unit(parts[k]));
        }
        lemma_exact_prefix(front, i);
        assert(front.take(i) =~= parts.take(i));
        assert(unit(parts[parts.len() - 1]));
    }
}

proof fn lemma_entries_count(weights: Seq<PathWeight>, paths: Seq<(PeerConnId, PathSnapshot)>)
    ensures
        weighted_conns(weights, paths).len() <= weights.len(),
    decreases weights.len(),
{
    if weights.len() > 0 {
        lemma_entries_count(weights.drop_last(), paths);
    }
}

/// Sums of more shares are not smaller.
proof fn lemma_prefixes_grow(parts: Seq<F64>, i: int, j: int)
    requires
        forall|k: int| 0 <= k < parts.len() ==> unit(#[trigger] parts[k]),
        0 <= i <= j <= parts.len(),
        parts.len() <= 0x4_0000_0000_0000,
    ensures
        total(parts.take(i)).plain(),
        total(parts.take(j)).plain(),
        total(parts.take(i)).at_most(total(parts.take(j))),
    decreases j - i,
{
    lemma_prefix_plain(parts, i);
    lemma_prefix_plain(parts, j);
    if i == j {
        lemma_order(total(parts.take(i)), total(parts.take(i)));
    } else {
        lemma_prefixes_grow(parts, i, j - 1);
        let (a, b) = (parts.take(j - 1), parts.take(j));
        assert(b.drop_last() =~= a);
        assert(b.last() == parts[j - 1]);
        assert(unit(parts[j - 1]));
        lemma_sum_above(total(a), b.last());
        lemma_order(total(a), total(b));
    }
}

proof fn lemma_prefix_plain(parts: Seq<F64>, i: int)
    requires
        forall|k: int| 0 <= k < parts.len() ==> unit(#[trigger] parts[k]),
        0 <= i <= parts.len(),
        parts.len() <= 0x4_0000_0000_0000,
    ensures
        total(parts.take(i)).plain(),
{
    lemma_zero_one();
    let a = parts.take(i);
    assert forall|k: int| 0 <= k < a.len() implies (#[trigger] a[k]).plain() && a[k].mag() <= 2
        * one() by {
        assert(a[k] == parts[k]);
        assert(unit(parts[k]));
        lemma_order(parts[k], of_whole(1));
        lemma_mag_order(parts[k], of_whole(1));
    }
    lemma_total_finite(a);
}

/// The second copies taken by a series of packets, each with its time and first connection.
pub open spec fn copies_taken(st: RedundancyState, uses: Seq<(u64, PeerConnId)>) -> nat
    decreases uses.len(),
{
    if uses.len() == 0 {
        0
    } else {
        let (now_ms, primary) = uses.first();
        let rest = copies_taken(st.spent(now_ms, primary), uses.drop_first());
        if st.at(now_ms).partner(primary) is Some {
            rest + 1
        } else {
            rest
        }
    }
}

/// No more second copies are taken in an epoch than the budget grants, and none after it.
pub proof fn law_copies_stay_within_the_budget(st: RedundancyState, uses: Seq<(u64, PeerConnId)>)
    ensures
        copies_taken(st, uses) <= st.remaining_pkts,
        (forall|i: int| 0 <= i < uses.len() ==> (#[trigger] uses[i]).0 > st.valid_until_ms)
            ==> copies_taken(st, uses) == 0,
    decreases uses.len(),
{
    if uses.len() > 0 {
        let (now_ms, primary) = uses.first();
        let rest = uses.drop_first();
        let next = st.spent(now_ms, primary);
        law_copies_stay_within_the_budget(next, rest);
        if forall|i: int| 0 <= i < uses.len() ==> (#[trigger] uses[i]).0 > st.valid_until_ms {
            assert(uses[0].0 > st.valid_until_ms);
            assert forall|i: int| 0 <= i < rest.len() implies (#[trigger] rest[i]).0
                > next.valid_until_ms by {
                assert(rest[i] == uses[i + 1]);
            }
        }
    }
}

/// Without a plan there are no routes: nothing is drawn, nothing stands for the peer, and
/// nothing is sent twice.
pub proof fn law_without_a_plan_there_are_no_routes(
    known: Known,
    now_ms: u64,
    paths: Seq<(PeerConnId, PathSnapshot)>,
    x: F64,
    primary: PeerConnId,
    later_ms: u64,
)
    ensures
        ({
            let next = known.planned(now_ms, paths, None);
            &&& next.weighted_choice(x) is None
            &&& next.default_ids.len() == 0
            &&& next.copies(primary, later_ms) == seq![primary]
            &&& next.conns == known.conns
            &&& next.prev_weights == known.prev_weights
        }),
{
}

/// A packet goes over one or two connections, all of them in the table.
pub proof fn law_copies_go_over_connections(known: Known, primary: PeerConnId, now_ms: u64)
    requires
        known.conns.dom().contains(primary),
    ensures
        1 <= known.copies(primary, now_ms).len() <= 2,
        known.copies(primary, now_ms)[0] == primary,
        forall|i: int|
            0 <= i < known.copies(primary, now_ms).len() ==> known.conns.dom().contains(
                #[trigger] known.copies(primary, now_ms)[i],
            ),
{
}

/// The weight that stands last in the total order is one of the weights.
proof fn lemma_topmost(weights: Seq<PathWeight>) -> (i: int)
    requires
        weights.len() > 0,
    ensures
        0 <= i < weights.len(),
        weights[i] == topmost(weights),
    decreases weights.len(),
{
    if weights.len() == 1 {
        0
    } else {
        let before = lemma_topmost(weights.drop_last());
        if topmost(weights.drop_last()).weight.rank() <= weights.last().weight.rank() {
            weights.len() - 1
        } else {
            before
        }
    }
}

/// A peer with a usable path has a plan and a connection that stands for it, one of those that
/// were planned over.
pub proof fn law_planned_peers_have_a_default(
    known: Known,
    now_ms: u64,
    paths: Seq<(PeerConnId, PathSnapshot)>,
    gates: Seq<F64>,
)
    requires
        paths.len() <= usize::MAX,
    ensures
        ({
            let next = known.refreshed(now_ms, paths, gates);
            &&& next.plan is Some <==> exists|k: int|
                0 <= k < paths.len() && (#[trigger] paths[k]).1.usable()
            &&& next.plan is Some <==> next.default_ids.len() > 0
            &&& next.default_ids.len() > 0 ==> among(paths, next.default_ids[0])
        }),
{
    let epoch = known.epoch(now_ms, paths);
    let snaps = snapshots(paths);
    law_plans_are_over_usable_paths(known.cfg, epoch, gates);
    assert forall|k: int| 0 <= k < paths.len() implies (#[trigger] paths[k]).1 == snaps[k] by {
    }
    if exists|k: int| 0 <= k < snaps.len() && (#[trigger] snaps[k]).usable() {
        let k = choose|k: int| 0 <= k < snaps.len() && (#[trigger] snaps[k]).usable();
        assert(paths[k].1.usable());
    }
    if exists|k: int| 0 <= k < paths.len() && (#[trigger] paths[k]).1.usable() {
        let k = choose|k: int| 0 <= k < paths.len() && (#[trigger] paths[k]).1.usable();
        assert(snaps[k].usable());
    }
    if plan_for(known.cfg, epoch, gates) is Some {
        let plan = plan_for(known.cfg, epoch, gates).unwrap();
        let i = lemma_topmost(plan.weights);
        let id = plan.weights[i].id;
        assert(usable_id(snaps, id));
        let k = choose|k: int|
            0 <= k < snaps.len() && (#[trigger] snaps[k]).usable() && snaps[k].id == id;
        assert(paths[k].1.id == id);
        lemma_conn_of(paths, id);
    }
}

/// Where connections and their paths have identifiers of their own, a second copy never goes
/// over the connection of the first.
pub proof fn law_second_copies_go_elsewhere(
    known: Known,
    now_ms: u64,
    paths: Seq<(PeerConnId, PathSnapshot)>,
    gates: Seq<F64>,
    primary: PeerConnId,
    later_ms: u64,
)
    requires
        paths.len() <= usize::MAX,
        forall|i: int, j: int|
            0 <= i < j < paths.len() ==> (#[trigger] paths[i]).0 != (#[trigger] paths[j]).0
                && paths[i].1.id != paths[j].1.id,
    ensures
        ({
            let next = known.refreshed(now_ms, paths, gates);
            next.redundancy.at(later_ms).partner(primary) != Some(primary)
        }),
{
    let epoch = known.epoch(now_ms, paths);
    let outcome = plan_for(known.cfg, epoch, gates);
    if outcome is Some {
        let plan = outcome.unwrap();
        law_redundancy_is_over_the_two_fastest(known.cfg, epoch, gates);
        if pair_of(plan.redundancy) is Some {
            let pair = pair_of(plan.redundancy).unwrap().0;
            let ranked = ranked_candidates(known.cfg, epoch);
            lemma_ranked(known.cfg, epoch);
            lemma_places_differ(known.cfg, epoch, 0, 1);
            let snaps = snapshots(paths);
            let (a, b) = (ranked[0].slot as int, ranked[1].slot as int);
            assert(snaps[a].id == pair.0 && snaps[b].id == pair.1);
            assert(a != b);
            if a < b {
                assert(paths[a].1.id != paths[b].1.id);
            } else {
                assert(paths[b].1.id != paths[a].1.id);
            }
            lemma_conn_of(paths, pair.0);
            lemma_conn_of(paths, pair.1);
            if conns_of_pair(paths, pair) is Some {
                let (c, d) = conns_of_pair(paths, pair).unwrap();
                let i = choose|k: int|
                    0 <= k < paths.len() && (#[trigger] paths[k]).0 == c && paths[k].1.id == pair.0;
                let j = choose|k: int|
                    0 <= k < paths.len() && (#[trigger] paths[k]).0 == d && paths[k].1.id == pair.1;
                assert(i != j);
                if i < j {
                    assert(paths[i].0 != paths[j].0);
                } else {
                    assert(paths[j].0 != paths[i].0);
                }
            }
        }
    }
}

} // verus!
