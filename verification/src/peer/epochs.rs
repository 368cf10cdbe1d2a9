//! What a plan means for a peer, from one epoch to the next.
use vstd::prelude::*;

use crate::multipath_scheduler::candidate::candidates;
use crate::multipath_scheduler::laws::law_plans_are_over_usable_paths;
use crate::multipath_scheduler::plan::{plan_for, total};
use crate::multipath_scheduler::weights::{lemma_parts_at_most, lemma_parts_finite};
use crate::multipath_scheduler::{
    default_config, Config, Epoch, PathId, PathSnapshot, PathWeight, Plan, RedundancyMode,
};
use crate::num::bounds::lemma_order;
use crate::num::double::{lemma_mag_order, signed, F64};
use crate::peer::laws::{copies_taken, law_draws_hit_an_entry, lemma_weighted_conns};
use crate::peer::routes::{
    conn_of, default_ids, drawable, path_of, seconds_of, selector_for, topmost, weighted_conns,
    PeerConnId, RedundancyState,
};
use crate::peer::{open_infos, snapshots, to_close, Known, PeerConnInfo, PeerId};

verus! {

/// The input of a plan over some connections at the time `now_ms`: an epoch of 200 milliseconds
/// and packets of 1500 bytes.
pub open spec fn epoch_over(
    now_ms: u64,
    paths: Seq<(PeerConnId, PathSnapshot)>,
    before: Option<Seq<PathWeight>>,
) -> Epoch {
    Epoch {
        now_ms: now_ms as nat,
        epoch_ms: 200,
        packet_len_hint: 1500,
        paths: Seq::new(paths.len(), |i: int| paths[i].1),
        prev_weights: before,
    }
}

/// Epochs build on each other: a plan is made with the weights of the last plan that there was,
/// and without any while there was none. A refresh touches neither the connections nor the
/// parameters.
pub proof fn law_epochs_build_on_each_other(
    known: Known,
    now_ms: u64,
    paths: Seq<(PeerConnId, PathSnapshot)>,
    gates: Seq<F64>,
    later_ms: u64,
    later_paths: Seq<(PeerConnId, PathSnapshot)>,
    later_gates: Seq<F64>,
)
    requires
        paths.len() <= usize::MAX,
    ensures
        ({
            let first = known.refreshed(now_ms, paths, gates);
            let second = first.refreshed(later_ms, later_paths, later_gates);
            &&& first.cfg == known.cfg
            &&& first.conns == known.conns
            &&& first.node == known.node
            &&& known.prev_weights.len() == 0 ==> first.plan == plan_for(
                known.cfg,
                epoch_over(now_ms, paths, None),
                gates,
            )
            &&& known.prev_weights.len() > 0 ==> first.plan == plan_for(
                known.cfg,
                epoch_over(now_ms, paths, Some(known.prev_weights)),
                gates,
            )
            &&& first.plan matches Some(plan) ==> second.plan == plan_for(
                known.cfg,
                epoch_over(later_ms, later_paths, Some(plan.weights)),
                later_gates,
            )
            &&& first.plan is None ==> second.plan == known.refreshed(
                later_ms,
                later_paths,
                later_gates,
            ).plan
        }),
{
    let first = known.refreshed(now_ms, paths, gates);
    let epoch = known.epoch(now_ms, paths);
    assert(snapshots(paths) =~= Seq::new(paths.len(), |i: int| paths[i].1));
    assert(snapshots(later_paths) =~= Seq::new(later_paths.len(), |i: int| later_paths[i].1));
    law_plans_are_over_usable_paths(known.cfg, epoch, gates);
}

/// The connection at the place `k` is the first whose path has the given identifier.
pub open spec fn first_conn(paths: Seq<(PeerConnId, PathSnapshot)>, id: PathId, k: int) -> bool {
    &&& 0 <= k < paths.len()
    &&& paths[k].1.id == id
    &&& forall|j: int| 0 <= j < k ==> (#[trigger] paths[j]).1.id != id
}

/// Some path has the given identifier.
pub open spec fn has_conn(paths: Seq<(PeerConnId, PathSnapshot)>, id: PathId) -> bool {
    exists|k: int| 0 <= k < paths.len() && (#[trigger] paths[k]).1.id == id
}

/// The connection of a path is that of the first path with its identifier; there is one if there
/// is such a path.
pub proof fn law_paths_have_the_first_connection(
    paths: Seq<(PeerConnId, PathSnapshot)>,
    id: PathId,
) -> (k: int)
    ensures
        conn_of(paths, id) is Some <==> has_conn(paths, id),
        conn_of(paths, id) matches Some(c) ==> first_conn(paths, id, k) && paths[k].0 == c,
    decreases paths.len(),
{
    if paths.len() == 0 {
        0
    } else if paths[0].1.id == id {
        assert(has_conn(paths, id));
        0
    } else {
        let rest = paths.drop_first();
        let k = law_paths_have_the_first_connection(rest, id);
        if has_conn(rest, id) {
            let j = choose|j: int| 0 <= j < rest.len() && (#[trigger] rest[j]).1.id == id;
            assert(paths[j + 1] == rest[j]);
            assert forall|j: int| 0 <= j < k + 1 implies (#[trigger] paths[j]).1.id != id by {
                if j > 0 {
                    assert(rest[j - 1] == paths[j]);
                }
            }
        }
        if has_conn(paths, id) {
            let j = choose|j: int| 0 <= j < paths.len() && (#[trigger] paths[j]).1.id == id;
            assert(rest[j - 1] == paths[j]);
        }
        k + 1
    }
}

/// The weight is a positive number and its path has a connection.
pub open spec fn carries(w: PathWeight, paths: Seq<(PeerConnId, PathSnapshot)>) -> bool {
    signed(false, 0).less(w.weight) && has_conn(paths, w.id)
}

/// How many of the first `i` weights are positive and have a connection.
pub open spec fn carriers(
    weights: Seq<PathWeight>,
    paths: Seq<(PeerConnId, PathSnapshot)>,
    i: int,
) -> nat
    decreases i,
{
    if i <= 0 {
        0
    } else {
        carriers(weights, paths, i - 1) + if carries(weights[i - 1], paths) {
            1nat
        } else {
            0
        }
    }
}

proof fn lemma_drawable_carries(w: F64)
    ensures
        !drawable(w).at_most(signed(false, 0)) <==> signed(false, 0).less(w),
        signed(false, 0).less(w) ==> drawable(w) == w,
{
    let zero = signed(false, 0);
    lemma_mag_order(w, zero);
    lemma_mag_order(zero, w);
    lemma_mag_order(zero, zero);
}

proof fn lemma_carriers_alike(
    a: Seq<PathWeight>,
    b: Seq<PathWeight>,
    paths: Seq<(PeerConnId, PathSnapshot)>,
    i: int,
)
    requires
        0 <= i <= a.len(),
        i <= b.len(),
        forall|j: int| 0 <= j < i ==> #[trigger] a[j] == b[j],
    ensures
        carriers(a, paths, i) == carriers(b, paths, i),
    decreases i,
{
    if i > 0 {
        assert(a[i - 1] == b[i - 1]);
        lemma_carriers_alike(a, b, paths, i - 1);
    }
}

proof fn lemma_weighted(weights: Seq<PathWeight>, paths: Seq<(PeerConnId, PathSnapshot)>, i: int)
    ensures
        weighted_conns(weights, paths).len() == carriers(weights, paths, weights.len() as int),
        0 <= i < weights.len() && carries(weights[i], paths) ==> {
            let at = carriers(weights, paths, i) as int;
            &&& 0 <= at < weighted_conns(weights, paths).len()
            &&& weighted_conns(weights, paths)[at].1 == weights[i].weight
            &&& conn_of(paths, weights[i].id) == Some(weighted_conns(weights, paths)[at].0)
        },
    decreases weights.len(),
{
    if weights.len() > 0 {
        let front = weights.drop_last();
        let n = weights.len() as int;
        lemma_carriers_alike(front, weights, paths, n - 1);
        lemma_drawable_carries(weights.last().weight);
        let k = law_paths_have_the_first_connection(paths, weights.last().id);
        if i == n - 1 {
            lemma_weighted(front, paths, 0);
        } else {
            lemma_weighted(front, paths, i);
            if 0 <= i < n - 1 {
                lemma_carriers_alike(front, weights, paths, i);
                assert(front[i] == weights[i]);
            }
        }
    }
}

/// Every connection of a path with a positive weight can be drawn, and no other: the table has
/// one entry for each of them, in the order of the plan.
pub proof fn law_every_weighted_connection_can_be_drawn(
    plan: Plan,
    paths: Seq<(PeerConnId, PathSnapshot)>,
    i: int,
)
    requires
        0 <= i < plan.weights.len(),
        carries(plan.weights[i], paths),
        total(seconds_of(weighted_conns(plan.weights, paths))).finite(),
    ensures
        selector_for(plan, paths) matches Some(es) && {
            let at = carriers(plan.weights, paths, i) as int;
            let ws = seconds_of(weighted_conns(plan.weights, paths));
            &&& es.len() == carriers(plan.weights, paths, plan.weights.len() as int)
            &&& ws.len() == es.len()
            &&& 0 <= at < es.len()
            &&& ws[at] == plan.weights[i].weight
            &&& exists|k: int|
                #[trigger] first_conn(paths, plan.weights[i].id, k) && paths[k].0 == es[at].0
        },
{
    let entries = weighted_conns(plan.weights, paths);
    let ws = seconds_of(entries);
    lemma_weighted(plan.weights, paths, i);
    let at = carriers(plan.weights, paths, i) as int;
    let k = law_paths_have_the_first_connection(paths, plan.weights[i].id);
    assert(first_conn(paths, plan.weights[i].id, k) && paths[k].0 == entries[at].0);
    lemma_positive_total(plan.weights, paths, at);
}

/// A finite sum of entries is positive.
proof fn lemma_positive_total(
    weights: Seq<PathWeight>,
    paths: Seq<(PeerConnId, PathSnapshot)>,
    at: int,
)
    requires
        total(seconds_of(weighted_conns(weights, paths))).finite(),
        0 <= at < weighted_conns(weights, paths).len(),
    ensures
        signed(false, 0).less(total(seconds_of(weighted_conns(weights, paths)))),
{
    let entries = weighted_conns(weights, paths);
    let ws = seconds_of(entries);
    lemma_parts_finite(ws);
    lemma_weighted_conns(weights, paths);
    assert forall|j: int| 0 <= j < ws.len() implies (#[trigger] ws[j]).plain() by {
        assert(ws[j] == entries[j].1);
        assert(ws[j].finite());
    }
    lemma_parts_at_most(ws, at);
    assert(ws[at] == entries[at].1);
    lemma_order(total(ws), total(ws));
}

/// The weight at the place `i` stands last in the total order, the last of several.
pub open spec fn stands_last(weights: Seq<PathWeight>, i: int) -> bool {
    &&& 0 <= i < weights.len()
    &&& forall|j: int|
        0 <= j < weights.len() ==> (#[trigger] weights[j]).weight.rank() <= weights[i].weight.rank()
            && (j > i ==> weights[j].weight.rank() < weights[i].weight.rank())
}

proof fn lemma_topmost_place(ws: Seq<PathWeight>) -> (i: int)
    requires
        ws.len() > 0,
    ensures
        stands_last(ws, i),
        topmost(ws) == ws[i],
    decreases ws.len(),
{
    if ws.len() == 1 {
        0
    } else {
        let front = ws.drop_last();
        let k = lemma_topmost_place(front);
        let r = if front[k].weight.rank() <= ws.last().weight.rank() {
            ws.len() - 1
        } else {
            k
        };
        assert forall|j: int| 0 <= j < ws.len() implies (#[trigger] ws[j]).weight.rank()
            <= ws[r].weight.rank() && (j > r ==> ws[j].weight.rank() < ws[r].weight.rank()) by {
            if j < front.len() {
                assert(front[j] == ws[j]);
            }
        }
        r
    }
}

/// The pair that a mode sends packets twice over, and the budget it has.
pub open spec fn grants(mode: RedundancyMode, a: PathId, b: PathId, budget: u32) -> bool {
    ||| mode matches RedundancyMode::ShortIdleCritical { pair, budget_pkts, .. } && pair == (a, b)
        && budget_pkts == budget
    ||| mode matches RedundancyMode::Percentage { pair, budget_pkts, .. } && pair == (a, b)
        && budget_pkts == budget
}

/// After a refresh with a plan, the peer is stood for by the connection of the heaviest path,
/// followed by its partner where packets are sent twice and it is of the pair.
pub proof fn law_heaviest_connection_stands_for_the_peer(
    known: Known,
    now_ms: u64,
    paths: Seq<(PeerConnId, PathSnapshot)>,
    plan: Plan,
) -> (i: int)
    requires
        plan.weights.len() > 0,
    ensures
        stands_last(plan.weights, i),
        ({
            let ids = known.planned(now_ms, paths, Some(plan)).default_ids;
            let primary = conn_of(paths, plan.weights[i].id);
            &&& !has_conn(paths, plan.weights[i].id) ==> ids.len() == 0
            &&& primary matches Some(c) ==> ids.len() >= 1 && ids[0] == c
            &&& ids.len() <= 2
            &&& plan.redundancy is Off ==> ids.len() <= 1
            &&& forall|a: PathId, b: PathId, budget: u32| #[trigger]
                grants(plan.redundancy, a, b, budget) ==> {
                    match (primary, conn_of(paths, a), conn_of(paths, b)) {
                        (Some(c), Some(x), Some(y)) => if c == x {
                            ids == seq![c, y]
                        } else if c == y {
                            ids == seq![c, x]
                        } else {
                            ids == seq![c]
                        },
                        _ => ids.len() <= 1,
                    }
                }
        }),
{
    let i = lemma_topmost_place(plan.weights);
    let k = law_paths_have_the_first_connection(paths, plan.weights[i].id);
    i
}

/// After a refresh with a plan that sends packets twice, the budget is that of the plan, lasts as
/// long as the plan, and is for the connections of its pair; a plan that does not, and a refresh
/// without a plan, leave none.
pub proof fn law_budgets_follow_the_plan(
    known: Known,
    now_ms: u64,
    paths: Seq<(PeerConnId, PathSnapshot)>,
    plan: Plan,
)
    requires
        plan.valid_until_ms <= u64::MAX,
        now_ms + 200 <= u64::MAX,
    ensures
        ({
            let st = known.planned(now_ms, paths, Some(plan)).redundancy;
            let without = known.planned(now_ms, paths, None);
            &&& st.valid_until_ms == plan.valid_until_ms
            &&& plan.redundancy is Off ==> st.remaining_pkts == 0 && st.pair is None
            &&& forall|a: PathId, b: PathId, budget: u32| #[trigger]
                grants(plan.redundancy, a, b, budget) ==> {
                    &&& st.remaining_pkts == budget
                    &&& st.pair == match (conn_of(paths, a), conn_of(paths, b)) {
                        (Some(x), Some(y)) => Some((x, y)),
                        _ => None,
                    }
                }
            &&& without.redundancy.remaining_pkts == 0
            &&& without.redundancy.pair is None
            &&& without.redundancy.valid_until_ms == now_ms + 200
            &&& without.plan is None
            &&& known.planned(now_ms, paths, Some(plan)).plan == Some(plan)
        }),
{
}

/// How many packets of a series go over the pair before the budget ends.
pub open spec fn eligible(st: RedundancyState, uses: Seq<(u64, PeerConnId)>) -> nat
    decreases uses.len(),
{
    if uses.len() == 0 || uses.first().0 > st.valid_until_ms {
        0
    } else {
        eligible(st, uses.drop_first()) + if st.pair matches Some((x, y)) && (uses.first().1 == x
            || uses.first().1 == y) {
            1nat
        } else {
            0
        }
    }
}

/// Second copies are taken for exactly the packets over the pair, until the epoch ends or the
/// budget is used up.
pub proof fn law_the_whole_budget_is_granted(st: RedundancyState, uses: Seq<(u64, PeerConnId)>)
    ensures
        copies_taken(st, uses) == if eligible(st, uses) <= st.remaining_pkts {
            eligible(st, uses)
        } else {
            st.remaining_pkts as nat
        },
    decreases uses.len(),
{
    if uses.len() > 0 {
        let (now_ms, primary) = uses.first();
        let rest = uses.drop_first();
        let next = st.spent(now_ms, primary);
        law_the_whole_budget_is_granted(next, rest);
        if now_ms > st.valid_until_ms {
            lemma_nothing_eligible(next, rest);
        } else {
            lemma_same_eligible(st, next, rest);
        }
    }
}

proof fn lemma_nothing_eligible(st: RedundancyState, uses: Seq<(u64, PeerConnId)>)
    requires
        st.pair is None,
    ensures
        eligible(st, uses) == 0,
    decreases uses.len(),
{
    if uses.len() > 0 {
        lemma_nothing_eligible(st, uses.drop_first());
    }
}

proof fn lemma_same_eligible(st: RedundancyState, next: RedundancyState, uses: Seq<(u64, PeerConnId)>)
    requires
        st.pair == next.pair,
        st.valid_until_ms == next.valid_until_ms,
    ensures
        eligible(st, uses) == eligible(next, uses),
    decreases uses.len(),
{
    if uses.len() > 0 {
        lemma_same_eligible(st, next, uses.drop_first());
    }
}

/// A packet sent over one of the pair gets a second copy over the other if and only if there is a
/// plan, the epoch is not over, the budget has a copy left and the other connection is still
/// there. Only then does the budget fall, by one.
pub proof fn law_second_copies_need_plan_time_and_budget(
    known: Known,
    primary: PeerConnId,
    now_ms: u64,
)
    ensures
        ({
            let st = known.redundancy;
            let live = known.plan is Some && now_ms <= st.valid_until_ms && st.remaining_pkts > 0;
            let ids = known.copies(primary, now_ms);
            let next = known.used(primary, now_ms);
            &&& ids[0] == primary
            &&& !live ==> ids.len() == 1
            &&& match st.pair {
                None => ids.len() == 1 && (known.plan is Some && now_ms <= st.valid_until_ms
                    ==> next.redundancy == st),
                Some((x, y)) => {
                    let hit = primary == x || primary == y;
                    let other = if primary == x {
                        y
                    } else {
                        x
                    };
                    &&& !hit ==> ids.len() == 1
                    &&& hit && live && known.conns.dom().contains(other) ==> ids == seq![
                        primary,
                        other,
                    ]
                    &&& hit && live && !known.conns.dom().contains(other) ==> ids.len() == 1
                    &&& hit && live ==> next.redundancy.remaining_pkts == st.remaining_pkts - 1
                    &&& hit && live ==> next.redundancy.pair == st.pair
                        && next.redundancy.valid_until_ms == st.valid_until_ms
                    &&& known.plan is Some && now_ms <= st.valid_until_ms && !(hit && live)
                        ==> next.redundancy == st
                },
            }
            &&& known.plan is None ==> next == known
            &&& next == (Known { redundancy: next.redundancy, ..known })
        }),
{
}

/// A refresh without a usable path leaves the peer without a plan and without routes, and keeps
/// the weights of the last plan for the next one.
pub proof fn law_weights_outlast_an_epoch_without_a_plan(
    known: Known,
    now_ms: u64,
    paths: Seq<(PeerConnId, PathSnapshot)>,
    gates: Seq<F64>,
)
    requires
        now_ms + 200 <= u64::MAX,
        forall|i: int| 0 <= i < paths.len() ==> !(#[trigger] paths[i]).1.usable(),
    ensures
        ({
            let next = known.refreshed(now_ms, paths, gates);
            &&& next.plan is None
            &&& next.prev_weights == known.prev_weights
            &&& next.default_ids.len() == 0
            &&& next.selector is None
            &&& next.redundancy.pair is None
            &&& next.redundancy.remaining_pkts == 0
            &&& next.redundancy.valid_until_ms == now_ms + 200
            &&& next.conns == known.conns
        }),
{
    let epoch = known.epoch(now_ms, paths);
    assert forall|i: int| 0 <= i < epoch.paths.len() implies !(#[trigger] epoch.paths[i]).usable() by {
        assert(epoch.paths[i] == paths[i].1);
    }
    lemma_none_usable(known.cfg, epoch.now_ms, epoch.packet_len_hint, epoch.paths);
}

/// Without a usable path there are no candidates.
proof fn lemma_none_usable(cfg: Config, now_ms: nat, packet_len: nat, paths: Seq<PathSnapshot>)
    requires
        forall|i: int| 0 <= i < paths.len() ==> !(#[trigger] paths[i]).usable(),
    ensures
        candidates(cfg, now_ms, packet_len, paths).len() == 0,
    decreases paths.len(),
{
    if paths.len() > 0 {
        let front = paths.drop_last();
        assert forall|i: int| 0 <= i < front.len() implies !(#[trigger] front[i]).usable() by {
            assert(!paths[i].usable());
        }
        lemma_none_usable(cfg, now_ms, packet_len, front);
        assert(!paths[paths.len() - 1].usable());
    }
}

/// A report that a connection is closed, by its place.
pub open spec fn reports_closed(
    infos: Seq<PeerConnInfo>,
    ids: Seq<Option<PeerConnId>>,
    id: PeerConnId,
    i: int,
) -> bool {
    0 <= i < infos.len() && infos[i].is_closed && ids[i] == Some(id)
}

/// A connection is taken out if and only if it is still there and some report says that it is
/// closed.
pub proof fn law_closed_connections_are_taken_out(
    conns: Map<PeerConnId, bool>,
    infos: Seq<PeerConnInfo>,
    ids: Seq<Option<PeerConnId>>,
    id: PeerConnId,
)
    requires
        infos.len() == ids.len(),
    ensures
        to_close(conns, infos, ids).contains(id) <==> conns.dom().contains(id) && exists|i: int|
            #[trigger] reports_closed(infos, ids, id, i),
        to_close(conns, infos, ids).len() <= infos.len(),
    decreases infos.len(),
{
    if infos.len() > 0 {
        let (a, b) = (infos.drop_last(), ids.drop_last());
        law_closed_connections_are_taken_out(conns, a, b, id);
        let (s, t) = (to_close(conns, a, b), to_close(conns, infos, ids));
        let last = infos.len() - 1;
        if t.contains(id) {
            let k = choose|k: int| 0 <= k < t.len() && t[k] == id;
            if k < s.len() {
                assert(s[k] == id);
                let i = choose|i: int| #[trigger] reports_closed(a, b, id, i);
                assert(reports_closed(infos, ids, id, i));
            } else {
                assert(reports_closed(infos, ids, id, last));
            }
        }
        if conns.dom().contains(id) && exists|i: int| #[trigger] reports_closed(infos, ids, id, i) {
            let i = choose|i: int| #[trigger] reports_closed(infos, ids, id, i);
            if i < last {
                assert(reports_closed(a, b, id, i));
                let k = choose|k: int| 0 <= k < s.len() && s[k] == id;
                assert(t[k] == id);
            } else {
                assert(t[s.len() as int] == id);
            }
        }
    }
}

/// The reports of open connections are listed, each of them, and no others.
pub proof fn law_open_connections_are_listed(infos: Seq<PeerConnInfo>)
    ensures
        forall|k: int|
            0 <= k < infos.len() && !(#[trigger] infos[k]).is_closed ==> open_infos(infos).contains(
                infos[k],
            ),
        forall|i: int|
            0 <= i < open_infos(infos).len() ==> !(#[trigger] open_infos(infos)[i]).is_closed
                && infos.contains(open_infos(infos)[i]),
    decreases infos.len(),
{
    reveal(Seq::filter);
    if infos.len() > 0 {
        let front = infos.drop_last();
        law_open_connections_are_listed(front);
        let (s, t) = (open_infos(front), open_infos(infos));
        let last = infos.len() - 1;
        assert forall|k: int| 0 <= k < infos.len() && !(
        #[trigger] infos[k]).is_closed implies t.contains(infos[k]) by {
            if k < last {
                assert(front[k] == infos[k]);
                let i = choose|i: int| 0 <= i < s.len() && s[i] == infos[k];
                assert(t[i] == infos[k]);
            } else {
                assert(t[s.len() as int] == infos[k]);
            }
        }
        assert forall|i: int| 0 <= i < t.len() implies !(#[trigger] t[i]).is_closed
            && infos.contains(t[i]) by {
            if i < s.len() {
                assert(s[i] == t[i]);
                let k = choose|k: int| 0 <= k < front.len() && front[k] == s[i];
                assert(infos[k] == t[i]);
            } else {
                assert(infos[last] == t[i]);
            }
        }
    }
}

/// The path over a connection goes by the low half of the identifier, whatever the high half is.
pub proof fn law_paths_go_by_the_low_half(high: u64, low: u64, conn_id: PeerConnId)
    requires
        conn_id == high * 0x1_0000_0000_0000_0000 + low,
    ensures
        path_of(conn_id) == low,
{
}

/// A packet goes over the connection of the first entry of the table whose cumulated weight
/// reaches the number drawn, or over the last; without a table there is no choice.
pub proof fn law_packets_go_over_the_entry_drawn(known: Known, x: F64) -> (i: int)
    ensures
        match known.selector {
            None => known.weighted_choice(x) is None,
            Some(entries) => entries.len() > 0 ==> {
                &&& 0 <= i < entries.len()
                &&& known.weighted_choice(x) == Some(entries[i].0)
                &&& forall|j: int| 0 <= j < i ==> !x.at_most((#[trigger] entries[j]).1)
                &&& i < entries.len() - 1 ==> x.at_most(entries[i].1)
            },
        },
{
    match known.selector {
        Some(entries) => if entries.len() > 0 {
            law_draws_hit_an_entry(entries, x)
        } else {
            0
        },
        None => 0,
    }
}

/// A second copy costs one packet of the budget; a packet without one, sent in time and over a
/// connection that is not of the pair, costs nothing. Nothing else changes.
pub proof fn law_second_copies_are_paid_for(known: Known, primary: PeerConnId, now_ms: u64)
    ensures
        ({
            let next = known.used(primary, now_ms);
            let (before, after) = (known.redundancy, next.redundancy);
            &&& known.copies(primary, now_ms).len() == 2 ==> after.remaining_pkts
                == before.remaining_pkts - 1 && after.pair == before.pair
            &&& known.plan is None ==> next == known
            &&& now_ms <= before.valid_until_ms && (before.pair matches Some(pair) ==> primary
                != pair.0 && primary != pair.1) ==> after == before
            &&& known.plan is Some && now_ms > before.valid_until_ms ==> after.pair is None
                && after.remaining_pkts == 0
            &&& after.valid_until_ms == before.valid_until_ms
            &&& next.plan == known.plan
            &&& next.conns == known.conns
            &&& next.selector == known.selector
            &&& next.prev_weights == known.prev_weights
            &&& next.default_ids == known.default_ids
            &&& next.cfg == known.cfg
            &&& next.node == known.node
        }),
{
}

/// A new peer has no connections, no plan, no routes and no budget, and the default parameters.
pub proof fn law_new_peers_know_nothing(node: PeerId, id: PeerConnId, now_ms: u64)
    ensures
        ({
            let known = Known::nothing(node);
            &&& known.node == node
            &&& !known.conns.dom().contains(id)
            &&& known.cfg == default_config()
            &&& known.plan is None
            &&& known.prev_weights.len() == 0
            &&& known.default_ids.len() == 0
            &&& known.selector is None
            &&& known.copies(id, now_ms) == seq![id]
        }),
{
}

} // verus!
