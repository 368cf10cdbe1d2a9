//! What a plan means for the connections: the default ones, the table that a connection is
//! drawn from, and the budget for second copies.
use vstd::prelude::*;

use crate::multipath_scheduler::plan::{shares, sum_of, total};
use crate::multipath_scheduler::{
    EpochPlan, PathId, PathSnapshot, PathWeight, Plan, RedundancyMode,
};
use crate::num::double::{of_whole, signed, F64};

verus! {

/// The identifier of a connection.
pub type PeerConnId = u128;

/// The identifier of the path over a connection: the low half of the connection's.
pub open spec fn path_of(conn_id: PeerConnId) -> PathId {
    (conn_id % 0x1_0000_0000_0000_0000) as u64
}

/// The identifier of the path over a connection.
pub fn path_id(conn_id: PeerConnId) -> (r: PathId)
    ensures
        r == path_of(conn_id),
{
    (conn_id % 0x1_0000_0000_0000_0000) as u64
}

/// The first connection whose path has the given identifier.
pub open spec fn conn_of(paths: Seq<(PeerConnId, PathSnapshot)>, id: PathId) -> Option<PeerConnId>
    decreases paths.len(),
{
    if paths.len() == 0 {
        None
    } else if paths.first().1.id == id {
        Some(paths.first().0)
    } else {
        conn_of(paths.drop_first(), id)
    }
}

/// The first connection whose path has the given identifier.
pub fn conn_with_path(paths: &Vec<(PeerConnId, PathSnapshot)>, id: PathId) -> (r: Option<
    PeerConnId,
>)
    ensures
        r == conn_of(paths@, id),
{
    let mut i: usize = 0;
    assert(paths@.skip(0) =~= paths@);
    while i < paths.len()
        invariant
            i <= paths.len(),
            conn_of(paths@, id) == conn_of(paths@.skip(i as int), id),
        decreases paths.len() - i,
    {
        assert(paths@.skip(i as int).first() == paths@[i as int]);
        assert(paths@.skip(i as int).drop_first() =~= paths@.skip(i + 1));
        if paths[i].1.id == id {
            return Some(paths[i].0);
        }
        i = i + 1;
    }
    None
}

/// The weight that stands last in the total order of all numbers, the last one of several.
pub open spec fn topmost(weights: Seq<PathWeight>) -> PathWeight
    decreases weights.len(),
{
    if weights.len() <= 1 {
        weights[0]
    } else {
        let before = topmost(weights.drop_last());
        if before.weight.rank() <= weights.last().weight.rank() {
            weights.last()
        } else {
            before
        }
    }
}

/// The weight that stands last in the total order, the last one of several.
pub fn topmost_weight(weights: &Vec<PathWeight>) -> (r: PathWeight)
    requires
        weights.len() > 0,
    ensures
        r == topmost(weights@),
{
    let mut best = weights[0];
    let mut i: usize = 1;
    assert(weights@.take(1)[0] == weights@[0]);
    while i < weights.len()
        invariant
            1 <= i <= weights.len(),
            best == topmost(weights@.take(i as int)),
        decreases weights.len() - i,
    {
        proof {
            assert(weights@.take(i + 1).drop_last() =~= weights@.take(i as int));
        }
        let w = weights[i];
        if best.weight.total_le(&w.weight) {
            best = w;
        }
        i = i + 1;
    }
    assert(weights@.take(i as int) =~= weights@);
    best
}

/// The pair of paths that a redundancy mode sends over, and its budget of packets.
pub open spec fn pair_of(mode: RedundancyMode) -> Option<((PathId, PathId), u32)> {
    match mode {
        RedundancyMode::Off => None,
        RedundancyMode::ShortIdleCritical { pair, budget_pkts, .. } => Some((pair, budget_pkts)),
        RedundancyMode::Percentage { pair, budget_pkts, .. } => Some((pair, budget_pkts)),
    }
}

/// The pair of paths of a redundancy mode, and its budget.
pub fn redundant_pair(mode: &RedundancyMode) -> (r: Option<((PathId, PathId), u32)>)
    ensures
        r == pair_of(*mode),
{
    match *mode {
        RedundancyMode::Off => None,
        RedundancyMode::ShortIdleCritical { pair, budget_pkts, .. } => Some((pair, budget_pkts)),
        RedundancyMode::Percentage { pair, budget_pkts, .. } => Some((pair, budget_pkts)),
    }
}

/// The connections of a pair of paths, if both have one.
pub open spec fn conns_of_pair(
    paths: Seq<(PeerConnId, PathSnapshot)>,
    pair: (PathId, PathId),
) -> Option<(PeerConnId, PeerConnId)> {
    match (conn_of(paths, pair.0), conn_of(paths, pair.1)) {
        (Some(a), Some(b)) => Some((a, b)),
        _ => None,
    }
}

/// The connections of a pair of paths, if both have one.
pub fn conns_with_paths(paths: &Vec<(PeerConnId, PathSnapshot)>, pair: (PathId, PathId)) -> (r:
    Option<(PeerConnId, PeerConnId)>)
    ensures
        r == conns_of_pair(paths@, pair),
{
    match (conn_with_path(paths, pair.0), conn_with_path(paths, pair.1)) {
        (Some(a), Some(b)) => Some((a, b)),
        _ => None,
    }
}

/// The other one of a pair that `conn` belongs to.
pub open spec fn other_of(pair: (PeerConnId, PeerConnId), conn: PeerConnId) -> Option<PeerConnId> {
    if conn == pair.0 {
        Some(pair.1)
    } else if conn == pair.1 {
        Some(pair.0)
    } else {
        None
    }
}

/// The other one of a pair that `conn` belongs to.
pub fn other_conn(pair: (PeerConnId, PeerConnId), conn: PeerConnId) -> (r: Option<PeerConnId>)
    ensures
        r == other_of(pair, conn),
{
    if conn == pair.0 {
        Some(pair.1)
    } else if conn == pair.1 {
        Some(pair.0)
    } else {
        None
    }
}

/// The connection of the heaviest path, followed by its partner if the plan sends packets
/// twice and the connection is of the pair.
pub open spec fn default_ids(plan: Plan, paths: Seq<(PeerConnId, PathSnapshot)>) -> Seq<
    PeerConnId,
> {
    let primary = if plan.weights.len() == 0 {
        None
    } else {
        conn_of(paths, topmost(plan.weights).id)
    };
    let pair = match pair_of(plan.redundancy) {
        Some((pair, budget)) => conns_of_pair(paths, pair),
        None => None,
    };
    match (primary, pair) {
        (None, _) => seq![],
        (Some(p), None) => seq![p],
        (Some(p), Some(pair)) => match other_of(pair, p) {
            Some(o) => seq![p, o],
            None => seq![p],
        },
    }
}

/// The default connections under a plan.
pub fn compute_default_ids(plan: &EpochPlan, paths: &Vec<(PeerConnId, PathSnapshot)>) -> (r: Vec<
    PeerConnId,
>)
    ensures
        r@ == default_ids(plan@, paths@),
{
    let mut ids: Vec<PeerConnId> = Vec::new();
    if plan.lb_weights.len() == 0 {
        return ids;
    }
    match conn_with_path(paths, topmost_weight(&plan.lb_weights).id) {
        None => {},
        Some(primary) => {
            ids.push(primary);
            if let Some((pair, _)) = redundant_pair(&plan.redundancy) {
                if let Some(conns) = conns_with_paths(paths, pair) {
                    if let Some(other) = other_conn(conns, primary) {
                        ids.push(other);
                    }
                }
            }
        },
    }
    ids
}

/// A weight as it counts for a draw: that of a number that is negative, or not a number, is
/// zero.
pub open spec fn drawable(w: F64) -> F64 {
    w.larger(signed(false, 0))
}

/// The connections that have a weight, in the order of the plan.
pub open spec fn weighted_conns(
    weights: Seq<PathWeight>,
    paths: Seq<(PeerConnId, PathSnapshot)>,
) -> Seq<(PeerConnId, F64)>
    decreases weights.len(),
{
    if weights.len() == 0 {
        seq![]
    } else {
        let before = weighted_conns(weights.drop_last(), paths);
        let w = drawable(weights.last().weight);
        if w.at_most(signed(false, 0)) {
            before
        } else {
            match conn_of(paths, weights.last().id) {
                Some(id) => before.push((id, w)),
                None => before,
            }
        }
    }
}

/// The second parts of some pairs.
pub open spec fn seconds_of(entries: Seq<(PeerConnId, F64)>) -> Seq<F64> {
    entries.map_values(|e: (PeerConnId, F64)| e.1)
}

/// Each connection with the sum of the shares up to its own; that of the last is one.
pub open spec fn cumulated(entries: Seq<(PeerConnId, F64)>) -> Seq<(PeerConnId, F64)> {
    let ws = seconds_of(entries);
    Seq::new(
        entries.len(),
        |i: int|
            (
                entries[i].0,
                if i == entries.len() - 1 {
                    of_whole(1)
                } else {
                    total(shares(ws, total(ws)).take(i + 1))
                },
            ),
    )
}

/// The table that connections are drawn from under a plan.
pub open spec fn selector_for(plan: Plan, paths: Seq<(PeerConnId, PathSnapshot)>) -> Option<
    Seq<(PeerConnId, F64)>,
> {
    let entries = weighted_conns(plan.weights, paths);
    if signed(false, 0).less(total(seconds_of(entries))) && entries.len() > 0 {
        Some(cumulated(entries))
    } else {
        None
    }
}

/// Connections with cumulated weights.
#[derive(Clone, Debug)]
pub struct LbSelector {
    pub entries: Vec<(PeerConnId, F64)>,
}

/// The contents of an optional selector.
pub open spec fn entries_of(selector: Option<LbSelector>) -> Option<Seq<(PeerConnId, F64)>> {
    match selector {
        Some(s) => Some(s.entries@),
        None => None,
    }
}

/// The connection that the number `x` draws: the first whose cumulated weight reaches it,
/// or the last.
pub open spec fn drawn(entries: Seq<(PeerConnId, F64)>, x: F64) -> PeerConnId
    decreases entries.len(),
{
    if entries.len() <= 1 || x.at_most(entries.first().1) {
        entries.first().0
    } else {
        drawn(entries.drop_first(), x)
    }
}

impl LbSelector {
    /// The table that connections are drawn from under a plan.
    pub fn for_plan(plan: &EpochPlan, paths: &Vec<(PeerConnId, PathSnapshot)>) -> (r: Option<
        LbSelector,
    >)
        ensures
            entries_of(r) == selector_for(plan@, paths@),
    {
        let mut entries: Vec<(PeerConnId, F64)> = Vec::new();
        let mut ws: Vec<F64> = Vec::new();
        let mut i: usize = 0;
        let ghost weights = plan@.weights;
        assert(weights.take(0) =~= seq![]);
        assert(seconds_of(entries@) =~= ws@);
        while i < plan.lb_weights.len()
            invariant
                i <= plan.lb_weights.len(),
                weights == plan.lb_weights@,
                entries@ == weighted_conns(weights.take(i as int), paths@),
                ws@ == seconds_of(entries@),
            decreases plan.lb_weights.len() - i,
        {
            let entry = plan.lb_weights[i];
            proof {
                assert(weights.take(i + 1).drop_last() =~= weights.take(i as int));
            }
            let weight = entry.weight.max(&F64::zero());
            if !weight.le(&F64::zero()) {
                if let Some(id) = conn_with_path(paths, entry.id) {
                    let ghost before = entries@;
                    entries.push((id, weight));
                    ws.push(weight);
                    assert(seconds_of(before.push((id, weight))) =~= seconds_of(before).push(weight));
                }
            }
            i = i + 1;
        }
        assert(weights.take(i as int) =~= weights);
        let sum = sum_of(&ws);
        let n: usize = entries.len();
        if !F64::zero().lt(&sum) || n == 0 {
            return None;
        }
        let mut out: Vec<(PeerConnId, F64)> = Vec::new();
        let mut cum = F64::zero();
        let mut k: usize = 0;
        let ghost parts = shares(ws@, sum);
        assert(parts.take(0) =~= seq![]);
        while k < n
            invariant
                k <= n,
                n == entries.len(),
                n > 0,
                ws@ == seconds_of(entries@),
                parts == shares(ws@, sum),
                sum == total(ws@),
                out.len() == k,
                cum == total(parts.take(k as int)),
                forall|j: int| 0 <= j < k ==> #[trigger] out@[j] == cumulated(entries@)[j],
            decreases n - k,
        {
            proof {
                assert(parts.take(k + 1).drop_last() =~= parts.take(k as int));
            }
            cum = cum.plus(&ws[k].over(&sum));
            if k + 1 == n {
                out.push((entries[k].0, F64::from_u64(1)));
            } else {
                out.push((entries[k].0, cum));
            }
            k = k + 1;
        }
        assert(out@ =~= cumulated(entries@));
        Some(LbSelector { entries: out })
    }

    /// The connection that the number `x` draws.
    pub fn draw(&self, x: &F64) -> (r: Option<PeerConnId>)
        ensures
            r == if self.entries.len() == 0 {
                None
            } else {
                Some(drawn(self.entries@, *x))
            },
    {
        if self.entries.len() == 0 {
            return None;
        }
        let mut i: usize = 0;
        assert(self.entries@.skip(0) =~= self.entries@);
        while i + 1 < self.entries.len()
            invariant
                i < self.entries.len(),
                drawn(self.entries@, *x) == drawn(self.entries@.skip(i as int), *x),
            decreases self.entries.len() - i,
        {
            let e = self.entries[i];
            assert(self.entries@.skip(i as int).drop_first() =~= self.entries@.skip(i + 1));
            if x.le(&e.1) {
                return Some(e.0);
            }
            i = i + 1;
        }
        Some(self.entries[i].0)
    }
}

/// The budget for second copies in an epoch.
#[derive(Clone, Copy, Debug)]
pub struct RedundancyState {
    pub valid_until_ms: u64,
    pub pair: Option<(PeerConnId, PeerConnId)>,
    pub remaining_pkts: u32,
}

/// The budget that a plan grants.
pub open spec fn budget_for(plan: Plan, paths: Seq<(PeerConnId, PathSnapshot)>) -> RedundancyState {
    match pair_of(plan.redundancy) {
        Some((pair, budget)) => RedundancyState {
            valid_until_ms: plan.valid_until_ms as u64,
            pair: conns_of_pair(paths, pair),
            remaining_pkts: budget,
        },
        None => RedundancyState {
            valid_until_ms: plan.valid_until_ms as u64,
            pair: None,
            remaining_pkts: 0,
        },
    }
}

impl RedundancyState {
    /// The budget at the time `now_ms`: none once the epoch is over.
    pub open spec fn at(self, now_ms: u64) -> RedundancyState {
        if now_ms > self.valid_until_ms {
            RedundancyState { remaining_pkts: 0, pair: None, ..self }
        } else {
            self
        }
    }

    /// The connection for a second copy of a packet sent over `primary`.
    pub open spec fn partner(self, primary: PeerConnId) -> Option<PeerConnId> {
        match self.pair {
            Some(pair) => if self.remaining_pkts > 0 {
                other_of(pair, primary)
            } else {
                None
            },
            None => None,
        }
    }

    /// The budget after a packet sent over `primary` at the time `now_ms`.
    pub open spec fn spent(self, now_ms: u64, primary: PeerConnId) -> RedundancyState {
        let now = self.at(now_ms);
        if now.partner(primary) is Some {
            RedundancyState { remaining_pkts: (now.remaining_pkts - 1) as u32, ..now }
        } else {
            now
        }
    }

    /// No budget, and none to come.
    pub open spec fn none() -> RedundancyState {
        RedundancyState { valid_until_ms: 0, pair: None, remaining_pkts: 0 }
    }

    /// The budget that a plan grants.
    pub fn for_plan(plan: &EpochPlan, paths: &Vec<(PeerConnId, PathSnapshot)>) -> (r:
        RedundancyState)
        ensures
            r == budget_for(plan@, paths@),
    {
        match redundant_pair(&plan.redundancy) {
            Some((pair, budget)) => RedundancyState {
                valid_until_ms: plan.valid_until_ms,
                pair: conns_with_paths(paths, pair),
                remaining_pkts: budget,
            },
            None => RedundancyState {
                valid_until_ms: plan.valid_until_ms,
                pair: None,
                remaining_pkts: 0,
            },
        }
    }

    /// Takes a second copy of a packet sent over `primary` from the budget, if the budget
    /// has one, and gives the connection for it.
    pub fn take(&mut self, now_ms: u64, primary: PeerConnId) -> (r: Option<PeerConnId>)
        ensures
            *final(self) == old(self).spent(now_ms, primary),
            r == old(self).at(now_ms).partner(primary),
    {
        if now_ms > self.valid_until_ms {
            self.remaining_pkts = 0;
            self.pair = None;
        }
        let mut partner: Option<PeerConnId> = None;
        if self.remaining_pkts > 0 {
            if let Some(pair) = self.pair {
                partner = other_conn(pair, primary);
            }
        }
        if partner.is_some() {
            self.remaining_pkts = self.remaining_pkts - 1;
        }
        partner
    }
}

impl Default for RedundancyState {
    fn default() -> (r: RedundancyState)
        ensures
            r == RedundancyState::none(),
    {
        RedundancyState { valid_until_ms: 0, pair: None, remaining_pkts: 0 }
    }
}

} // verus!
