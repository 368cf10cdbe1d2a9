//! The connections to a peer.
//!
//! A [`Peer`] knows its connections, plans an epoch over their paths, and chooses for each
//! packet the connections to send it over. It does no work of its own on a connection: it is
//! told what happened and answers what to do.
use vstd::prelude::*;

use crate::multipath_scheduler::plan::{exponents_for, plan_for};
use crate::multipath_scheduler::{
    default_config, Config, Epoch, EpochInput, EpochPlan, PathSnapshot, PathWeight, Plan, Scheduler,
};
use crate::num::double::F64;
use crate::peer::routes::{
    budget_for, compute_default_ids, default_ids, drawn, entries_of, selector_for, LbSelector,
    PeerConnId, RedundancyState,
};
use crate::peer::table::{
    conn_table, id_set, parse_uuid, random_index, set_insert, set_new, table_contains, table_entries,
    table_insert, table_is_empty, table_len, table_new, table_remove, uuid_of_text,
};

pub mod epochs;
pub mod laws;
pub mod routes;
pub mod sending;
pub mod table;

verus! {

/// The identifier of a peer.
pub type PeerId = u32;

/// Why a peer could not do as asked.
#[derive(Clone, Copy, Debug, PartialEq, Eq, Structural)]
pub enum Error {
    /// No connection to the peer took the packet.
    PeerNoConnectionError(PeerId),
    /// There is no such connection.
    NotFound,
}

/// The length of an epoch, in milliseconds.
pub const EPOCH_MS: u32 = 200;

/// The length of a typical packet.
pub const PACKET_LEN_HINT: usize = 1500;

/// A peer and the connections to it.
pub struct Peer {
    pub peer_node_id: PeerId,
    pub links: Links,
}

/// The connections to a peer and the routes over them.
pub struct Links {
    conns: dashmap::DashMap<u128, bool>,
    multipath_scheduler: Scheduler,
    default_conn_ids: Vec<PeerConnId>,
    epoch_plan: Option<EpochPlan>,
    prev_weights: Vec<PathWeight>,
    lb_selector: Option<LbSelector>,
    redundancy_state: RedundancyState,
}

/// What a peer knows.
#[verifier::ext_equal]
pub struct Known {
    /// The identifier of the peer.
    pub node: PeerId,
    /// The connections, and which of them were made by hole punching.
    pub conns: Map<PeerConnId, bool>,
    pub cfg: Config,
    pub default_ids: Seq<PeerConnId>,
    pub plan: Option<Plan>,
    /// The weights of the last plan.
    pub prev_weights: Seq<PathWeight>,
    /// The table that connections are drawn from.
    pub selector: Option<Seq<(PeerConnId, F64)>>,
    pub redundancy: RedundancyState,
}

/// The contents of an optional plan.
pub open spec fn plan_contents(plan: Option<EpochPlan>) -> Option<Plan> {
    match plan {
        Some(p) => Some(p@),
        None => None,
    }
}

/// The paths of some connections.
pub open spec fn snapshots(paths: Seq<(PeerConnId, PathSnapshot)>) -> Seq<PathSnapshot> {
    paths.map_values(|p: (PeerConnId, PathSnapshot)| p.1)
}

impl Known {
    /// A peer without connections.
    pub open spec fn nothing(node: PeerId) -> Known {
        Known {
            node,
            conns: Map::empty(),
            cfg: default_config(),
            default_ids: seq![],
            plan: None,
            prev_weights: seq![],
            selector: None,
            redundancy: RedundancyState::none(),
        }
    }

    /// The input of a plan over the paths of some connections.
    pub open spec fn epoch(self, now_ms: u64, paths: Seq<(PeerConnId, PathSnapshot)>) -> Epoch {
        Epoch {
            now_ms: now_ms as nat,
            epoch_ms: EPOCH_MS as nat,
            packet_len_hint: PACKET_LEN_HINT as nat,
            paths: snapshots(paths),
            prev_weights: if self.prev_weights.len() == 0 {
                None
            } else {
                Some(self.prev_weights)
            },
        }
    }

    /// After the outcome of planning: a plan sets the routes, and without one there are none.
    pub open spec fn planned(
        self,
        now_ms: u64,
        paths: Seq<(PeerConnId, PathSnapshot)>,
        outcome: Option<Plan>,
    ) -> Known {
        match outcome {
            Some(plan) => Known {
                default_ids: default_ids(plan, paths),
                plan: Some(plan),
                prev_weights: plan.weights,
                selector: selector_for(plan, paths),
                redundancy: budget_for(plan, paths),
                ..self
            },
            None => Known {
                default_ids: seq![],
                plan: None,
                selector: None,
                redundancy: RedundancyState {
                    valid_until_ms: (now_ms + EPOCH_MS) as u64,
                    pair: None,
                    remaining_pkts: 0,
                },
                ..self
            },
        }
    }

    /// After planning an epoch.
    pub open spec fn refreshed(
        self,
        now_ms: u64,
        paths: Seq<(PeerConnId, PathSnapshot)>,
        gates: Seq<F64>,
    ) -> Known {
        self.planned(now_ms, paths, plan_for(self.cfg, self.epoch(now_ms, paths), gates))
    }

    /// The connection that the number `x` draws under the plan.
    pub open spec fn weighted_choice(self, x: F64) -> Option<PeerConnId> {
        match self.selector {
            Some(entries) => if entries.len() == 0 {
                None
            } else {
                Some(drawn(entries, x))
            },
            None => None,
        }
    }

    /// After a packet sent over `primary` at the time `now_ms`.
    pub open spec fn used(self, primary: PeerConnId, now_ms: u64) -> Known {
        if self.plan is None {
            self
        } else {
            Known { redundancy: self.redundancy.spent(now_ms, primary), ..self }
        }
    }

    /// The connections for a packet sent over `primary` at the time `now_ms`: a second one if
    /// the budget has a copy left and the partner is still there.
    pub open spec fn copies(self, primary: PeerConnId, now_ms: u64) -> Seq<PeerConnId> {
        match self.redundancy.at(now_ms).partner(primary) {
            Some(other) => if self.plan is Some && self.conns.dom().contains(other) {
                seq![primary, other]
            } else {
                seq![primary]
            },
            None => seq![primary],
        }
    }
}

impl View for Peer {
    type V = Known;

    closed spec fn view(&self) -> Known {
        Known {
            node: self.peer_node_id,
            conns: conn_table(self.links.conns),
            cfg: self.links.multipath_scheduler.cfg,
            default_ids: self.links.default_conn_ids@,
            plan: plan_contents(self.links.epoch_plan),
            prev_weights: self.links.prev_weights@,
            selector: entries_of(self.links.lb_selector),
            redundancy: self.links.redundancy_state,
        }
    }
}

/// What a connection reports of itself.
#[derive(Clone, Debug)]
pub struct PeerConnInfo {
    /// The identifier of the connection, as text.
    pub conn_id: String,
    pub is_closed: bool,
}

/// The open connections of a peer, and the closed ones to be taken out.
pub struct Listing {
    pub open: Vec<PeerConnInfo>,
    pub close: Vec<PeerConnId>,
}

/// The reports of open connections.
pub open spec fn open_infos(infos: Seq<PeerConnInfo>) -> Seq<PeerConnInfo> {
    infos.filter(|i: PeerConnInfo| !i.is_closed)
}

/// The identifiers of closed connections that are in the table.
pub open spec fn to_close(
    conns: Map<PeerConnId, bool>,
    infos: Seq<PeerConnInfo>,
    ids: Seq<Option<PeerConnId>>,
) -> Seq<PeerConnId>
    decreases infos.len(),
{
    if infos.len() == 0 {
        seq![]
    } else {
        let before = to_close(conns, infos.drop_last(), ids.drop_last());
        match ids.last() {
            Some(id) => if infos.last().is_closed && conns.dom().contains(id) {
                before.push(id)
            } else {
                before
            },
            None => before,
        }
    }
}

/// The identifiers that the reports name.
pub open spec fn named_ids(infos: Seq<PeerConnInfo>) -> Seq<Option<PeerConnId>> {
    infos.map_values(|i: PeerConnInfo| uuid_of_text(i.conn_id@))
}

/// Every closed connection names an identifier.
pub open spec fn closed_are_named(infos: Seq<PeerConnInfo>, ids: Seq<Option<PeerConnId>>) -> bool {
    forall|i: int| 0 <= i < infos.len() && (#[trigger] infos[i]).is_closed ==> ids[i] is Some
}

/// The walk over a table finds as many entries as the table has keys.
proof fn lemma_entries_len(m: Map<PeerConnId, bool>, entries: Seq<(PeerConnId, bool)>)
    requires
        forall|i: int| 0 <= i < entries.len() ==> m.dom().contains((#[trigger] entries[i]).0),
        forall|i: int, j: int|
            0 <= i < j < entries.len() ==> (#[trigger] entries[i]).0 != (#[trigger] entries[j]).0,
        forall|id: PeerConnId| #[trigger]
            m.dom().contains(id) ==> entries.contains((id, m[id])),
    ensures
        m.dom().finite(),
        m.dom().len() == entries.len(),
{
    let keys = entries.map_values(|e: (PeerConnId, bool)| e.0);
    assert(keys.no_duplicates());
    keys.unique_seq_to_set();
    assert forall|id: PeerConnId| #[trigger] m.dom().contains(id) <==> keys.to_set().contains(
        id,
    ) by {
        if m.dom().contains(id) {
            let i = choose|i: int| 0 <= i < entries.len() && entries[i] == (id, m[id]);
            assert(keys[i] == id);
        }
        if keys.to_set().contains(id) {
            let i = choose|i: int| 0 <= i < keys.len() && keys[i] == id;
            assert(entries[i].0 == id);
        }
    }
    assert(m.dom() =~= keys.to_set());
}

impl Peer {
    /// The scheduler has its default parameters.
    pub closed spec fn well_formed(&self) -> bool {
        self.links.multipath_scheduler.cfg == default_config()
    }

    /// A well-formed peer plans with the default parameters, and is known by its identifier.
    pub proof fn lemma_well_formed(&self)
        requires
            self.well_formed(),
        ensures
            self@.cfg == default_config(),
            self@.node == self.peer_node_id,
    {
    }

    /// The identifier of the peer.
    pub fn node_id(&self) -> (r: PeerId)
        ensures
            r == self@.node,
            r == self.peer_node_id,
    {
        self.peer_node_id
    }

    /// A peer without connections.
    pub fn new(peer_node_id: PeerId) -> (r: Peer)
        ensures
            r.well_formed(),
            r.peer_node_id == peer_node_id,
            r@ == Known::nothing(peer_node_id),
    {
        let cfg: Config = Default::default();
        let links = Links {
            conns: table_new(),
            multipath_scheduler: Scheduler::new(cfg),
            default_conn_ids: Vec::new(),
            epoch_plan: None,
            prev_weights: Vec::new(),
            lb_selector: None,
            redundancy_state: Default::default(),
        };
        Peer { peer_node_id, links }
    }

    /// Notes a new connection.
    pub fn add_peer_conn(&mut self, conn_id: PeerConnId, hole_punched: bool)
        requires
            old(self).well_formed(),
        ensures
            final(self).well_formed(),
            final(self).peer_node_id == old(self).peer_node_id,
            final(self)@ == (Known {
                conns: old(self)@.conns.insert(conn_id, hole_punched),
                ..old(self)@
            }),
    {
        table_insert(&mut self.links.conns, conn_id, hole_punched);
    }

    /// Takes a connection out that has been closed. The plan is to be refreshed if there was
    /// one.
    pub fn remove_peer_conn(&mut self, conn_id: PeerConnId) -> (r: bool)
        requires
            old(self).well_formed(),
        ensures
            final(self).well_formed(),
            final(self).peer_node_id == old(self).peer_node_id,
            final(self)@ == (Known { conns: old(self)@.conns.remove(conn_id), ..old(self)@ }),
            r == old(self)@.conns.dom().contains(conn_id),
    {
        table_remove(&mut self.links.conns, conn_id).is_some()
    }

    /// The input of a plan over the paths of the connections.
    fn epoch_input(&self, now_ms: u64, paths: &Vec<(PeerConnId, PathSnapshot)>) -> (r: EpochInput)
        ensures
            r@ == self@.epoch(now_ms, paths@),
    {
        let mut list: Vec<PathSnapshot> = Vec::new();
        let mut i: usize = 0;
        while i < paths.len()
            invariant
                i <= paths.len(),
                list.len() == i,
                forall|j: int| 0 <= j < i ==> #[trigger] list@[j] == paths@[j].1,
            decreases paths.len() - i,
        {
            list.push(paths[i].1);
            i = i + 1;
        }
        let prev = if self.links.prev_weights.len() == 0 {
            None
        } else {
            Some(self.links.prev_weights.clone())
        };
        let r = EpochInput {
            now_ms,
            epoch_ms: EPOCH_MS,
            packet_len_hint: PACKET_LEN_HINT,
            paths: list,
            prev_weights: prev,
        };
        proof {
            assert(r@.paths =~= snapshots(paths@));
            if self.links.prev_weights@.len() > 0 {
                assert(prev.unwrap()@ =~= self.links.prev_weights@);
            }
        }
        r
    }

    /// The exponents of the gates for the paths of the connections, as
    /// [`Scheduler::blest_exponents`] gives them.
    pub fn gate_exponents(&self, now_ms: u64, paths: &Vec<(PeerConnId, PathSnapshot)>) -> (r: Vec<
        F64,
    >)
        requires
            self.well_formed(),
        ensures
            r@ == exponents_for(self@.cfg, self@.epoch(now_ms, paths@)),
            r.len() == paths.len(),
    {
        self.links.multipath_scheduler.blest_exponents(&self.epoch_input(now_ms, paths))
    }

    /// Plans an epoch over the paths of the connections. `gates` holds the exponentials of
    /// what [`Peer::gate_exponents`] gives.
    pub fn refresh_epoch_plan(
        &mut self,
        now_ms: u64,
        paths: &Vec<(PeerConnId, PathSnapshot)>,
        gates: &Vec<F64>,
    )
        requires
            old(self).well_formed(),
            gates.len() == paths.len(),
            now_ms + EPOCH_MS <= u64::MAX,
        ensures
            final(self).well_formed(),
            final(self).peer_node_id == old(self).peer_node_id,
            final(self)@ == old(self)@.refreshed(now_ms, paths@, gates@),
    {
        let input = self.epoch_input(now_ms, paths);
        match self.links.multipath_scheduler.compute_plan(&input, gates) {
            Some(plan) => {
                self.links.default_conn_ids = compute_default_ids(&plan, paths);
                self.links.lb_selector = LbSelector::for_plan(&plan, paths);
                self.links.redundancy_state = RedundancyState::for_plan(&plan, paths);
                self.links.prev_weights = plan.lb_weights.clone();
                assert(self.links.prev_weights@ =~= plan.lb_weights@);
                self.links.epoch_plan = Some(plan);
            },
            None => {
                self.links.epoch_plan = None;
                self.links.default_conn_ids = Vec::new();
                self.links.lb_selector = None;
                self.links.redundancy_state = RedundancyState {
                    valid_until_ms: now_ms + EPOCH_MS as u64,
                    pair: None,
                    remaining_pkts: 0,
                };
            },
        }
        assert(self@ =~= old(self)@.refreshed(now_ms, paths@, gates@));
    }

    /// Whether a plan has to be made before a packet is sent.
    pub fn needs_plan(&self) -> (r: bool)
        ensures
            r == (self@.plan is None),
    {
        self.links.epoch_plan.is_none()
    }

    /// Whether to wait on for a plan that another task makes: there is none yet, and there are
    /// connections to make one over.
    pub fn awaits_plan(&self) -> (r: bool)
        ensures
            r == (self@.plan is None && self@.conns != Map::<PeerConnId, bool>::empty()),
    {
        self.links.epoch_plan.is_none() && !table_is_empty(&self.links.conns)
    }

    /// The connections for a packet whose first copy goes over `primary`.
    pub fn with_partner(&mut self, primary: PeerConnId, now_ms: u64) -> (r: Vec<PeerConnId>)
        requires
            old(self).well_formed(),
        ensures
            final(self).well_formed(),
            final(self).peer_node_id == old(self).peer_node_id,
            final(self)@ == old(self)@.used(primary, now_ms),
            r@ == old(self)@.copies(primary, now_ms),
    {
        let mut result: Vec<PeerConnId> = Vec::new();
        result.push(primary);
        if self.links.epoch_plan.is_some() {
            if let Some(other) = self.links.redundancy_state.take(now_ms, primary) {
                if table_contains(&self.links.conns, other) {
                    result.push(other);
                }
            }
        }
        result
    }

    /// The connections to send a packet over at the time `now_ms`: the one that the number `x`
    /// draws under the plan, or without a plan any one; and its partner while the budget for
    /// second copies lasts.
    pub fn select_conns(&mut self, x: F64, now_ms: u64) -> (r: Vec<PeerConnId>)
        requires
            old(self).well_formed(),
        ensures
            final(self).well_formed(),
            final(self).peer_node_id == old(self).peer_node_id,
            old(self)@.weighted_choice(x) matches Some(primary) ==> if old(
                self,
            )@.conns.dom().contains(primary) {
                final(self)@ == old(self)@.used(primary, now_ms) && r@ == old(self)@.copies(
                    primary,
                    now_ms,
                )
            } else {
                *final(self) == *old(self) && r@ == Seq::<PeerConnId>::empty()
            },
            old(self)@.weighted_choice(x) is None ==> if old(self)@.conns == Map::<
                PeerConnId,
                bool,
            >::empty() {
                *final(self) == *old(self) && r@ == Seq::<PeerConnId>::empty()
            } else {
                exists|primary: PeerConnId|
                    #![trigger old(self)@.conns.dom().contains(primary)]
                    old(self)@.conns.dom().contains(primary) && final(self)@ == old(self)@.used(
                        primary,
                        now_ms,
                    ) && r@ == old(self)@.copies(primary, now_ms)
            },
    {
        let choice = match &self.links.lb_selector {
            Some(selector) => selector.draw(&x),
            None => None,
        };
        let primary: PeerConnId = match choice {
            Some(id) => {
                if !table_contains(&self.links.conns, id) {
                    return Vec::new();
                }
                id
            },
            None => {
                let count: usize = table_len(&self.links.conns);
                let entries = table_entries(&self.links.conns);
                proof {
                    lemma_entries_len(self@.conns, entries@);
                    if count == 0 {
                        assert(self@.conns =~= Map::empty());
                    } else {
                        assert(self@.conns.dom().contains(entries@[0].0));
                    }
                }
                if count == 0 {
                    return Vec::new();
                }
                entries[random_index(count)].0
            },
        };
        self.with_partner(primary, now_ms)
    }

    /// Whether a connection may be closed: it has to be there.
    pub fn close_peer_conn(&self, conn_id: PeerConnId) -> (r: Result<(), Error>)
        ensures
            r == if self@.conns.dom().contains(conn_id) {
                Ok(())
            } else {
                Err(Error::NotFound)
            },
    {
        if !table_contains(&self.links.conns, conn_id) {
            return Err(Error::NotFound);
        }
        Ok(())
    }

    /// Sorts the reports of the connections: those of open ones are kept, and closed ones that
    /// are still in the table are to be closed. `ids` holds the identifiers that they name.
    pub fn sort_reports(&self, infos: &Vec<PeerConnInfo>, ids: &Vec<Option<PeerConnId>>) -> (r:
        Listing)
        requires
            infos.len() == ids.len(),
        ensures
            infos_equal(r.open@, open_infos(infos@)),
            r.close@ == to_close(self@.conns, infos@, ids@),
    {
        let mut open: Vec<PeerConnInfo> = Vec::new();
        let mut close: Vec<PeerConnId> = Vec::new();
        let ghost keep = |i: PeerConnInfo| !i.is_closed;
        let mut i: usize = 0;
        assert(infos@.take(0) =~= seq![]);
        assert(ids@.take(0) =~= seq![]);
        assert(infos@.take(0).filter(keep) =~= seq![]) by {
            reveal(Seq::filter);
        }
        while i < infos.len()
            invariant
                i <= infos.len(),
                infos.len() == ids.len(),
                keep == (|i: PeerConnInfo| !i.is_closed),
                infos_equal(open@, infos@.take(i as int).filter(keep)),
                close@ == to_close(self@.conns, infos@.take(i as int), ids@.take(i as int)),
            decreases infos.len() - i,
        {
            proof {
                reveal(Seq::filter);
                assert(infos@.take(i + 1).drop_last() =~= infos@.take(i as int));
                assert(ids@.take(i + 1).drop_last() =~= ids@.take(i as int));
            }
            if !infos[i].is_closed {
                let info = PeerConnInfo { conn_id: infos[i].conn_id.clone(), is_closed: false };
                open.push(info);
            } else if let Some(id) = ids[i] {
                if self.close_peer_conn(id).is_ok() {
                    close.push(id);
                }
            }
            i = i + 1;
        }
        assert(infos@.take(i as int) =~= infos@);
        assert(ids@.take(i as int) =~= ids@);
        Listing { open, close }
    }

    /// The reports of the open connections, and the closed connections to be taken out. There
    /// is no listing if a closed connection does not name its identifier.
    pub fn list_peer_conns(&self, infos: &Vec<PeerConnInfo>) -> (r: Option<Listing>)
        ensures
            r is Some <==> closed_are_named(infos@, named_ids(infos@)),
            r matches Some(listing) ==> infos_equal(listing.open@, open_infos(infos@))
                && listing.close@ == to_close(self@.conns, infos@, named_ids(infos@)),
    {
        let mut ids: Vec<Option<PeerConnId>> = Vec::new();
        let mut i: usize = 0;
        while i < infos.len()
            invariant
                i <= infos.len(),
                ids.len() == i,
                forall|j: int|
                    0 <= j < i ==> #[trigger] ids@[j] == uuid_of_text(infos@[j].conn_id@),
                forall|j: int|
                    0 <= j < i && (#[trigger] infos@[j]).is_closed ==> named_ids(
                        infos@,
                    )[j] is Some,
            decreases infos.len() - i,
        {
            let id = parse_uuid(infos[i].conn_id.as_str());
            if infos[i].is_closed && id.is_none() {
                assert(named_ids(infos@)[i as int] is None);
                return None;
            }
            ids.push(id);
            i = i + 1;
        }
        assert(ids@ =~= named_ids(infos@));
        Some(self.sort_reports(infos, &ids))
    }

    /// Whether some connection was made without hole punching.
    pub fn has_directly_connected_conn(&self) -> (r: bool)
        ensures
            r == exists|id: PeerConnId| #[trigger]
                self@.conns.dom().contains(id) && !self@.conns[id],
    {
        let entries = table_entries(&self.links.conns);
        let mut i: usize = 0;
        while i < entries.len()
            invariant
                i <= entries.len(),
                forall|j: int| 0 <= j < i ==> (#[trigger] entries@[j]).1,
                forall|j: int|
                    0 <= j < entries.len() ==> self@.conns.dom().contains((#[trigger] entries@[j]).0)
                        && self@.conns[entries@[j].0] == entries@[j].1,
            decreases entries.len() - i,
        {
            if !entries[i].1 {
                assert(self@.conns.dom().contains(entries@[i as int].0));
                return true;
            }
            i = i + 1;
        }
        assert forall|id: PeerConnId| #[trigger] self@.conns.dom().contains(
            id,
        ) implies self@.conns[id] by {
            let j = choose|j: int| 0 <= j < entries.len() && entries@[j] == (id, self@.conns[id]);
            assert(entries@[j].1);
        }
        false
    }

    /// The connections that were made without hole punching.
    pub fn get_directly_connections(&self) -> (r: dashmap::DashSet<u128>)
        ensures
            forall|id: PeerConnId| #[trigger]
                id_set(r).contains(id) <==> self@.conns.dom().contains(id) && !self@.conns[id],
    {
        let entries = table_entries(&self.links.conns);
        let mut set = set_new();
        let mut i: usize = 0;
        while i < entries.len()
            invariant
                i <= entries.len(),
                forall|id: PeerConnId| #[trigger]
                    id_set(set).contains(id) <==> exists|j: int|
                        0 <= j < i && (#[trigger] entries@[j]).0 == id && !entries@[j].1,
            decreases entries.len() - i,
        {
            let (id, hole_punched) = entries[i];
            let ghost before = id_set(set);
            if !hole_punched {
                set_insert(&mut set, id);
            }
            proof {
                assert forall|k: PeerConnId| #[trigger] id_set(set).contains(k) <==> exists|j: int|
                    0 <= j < i + 1 && (#[trigger] entries@[j]).0 == k && !entries@[j].1 by {
                    if before.contains(k) {
                        let j = choose|j: int|
                            0 <= j < i && (#[trigger] entries@[j]).0 == k && !entries@[j].1;
                        assert(0 <= j < i + 1 && entries@[j].0 == k);
                    }
                    if id_set(set).contains(k) && !before.contains(k) {
                        assert(entries@[i as int].0 == k);
                    }
                }
            }
            i = i + 1;
        }
        proof {
            assert forall|id: PeerConnId| #[trigger] id_set(set).contains(id) <==> self@.conns.dom().contains(
                id,
            ) && !self@.conns[id] by {
                if id_set(set).contains(id) {
                    let j = choose|j: int|
                        0 <= j < entries.len() && (#[trigger] entries@[j]).0 == id && !entries@[j].1;
                    assert(entries@[j].0 == id);
                }
                if self@.conns.dom().contains(id) && !self@.conns[id] {
                    let j = choose|j: int|
                        0 <= j < entries.len() && entries@[j] == (id, self@.conns[id]);
                    assert(entries@[j].0 == id);
                }
            }
        }
        set
    }

    /// The connection that stands for the peer, or zero.
    pub fn get_default_conn_id(&self) -> (r: PeerConnId)
        ensures
            r == if self@.default_ids.len() > 0 {
                self@.default_ids[0]
            } else {
                0
            },
    {
        if self.links.default_conn_ids.len() > 0 {
            self.links.default_conn_ids[0]
        } else {
            0
        }
    }
}

/// Reports that say the same.
pub open spec fn infos_equal(a: Seq<PeerConnInfo>, b: Seq<PeerConnInfo>) -> bool {
    &&& a.len() == b.len()
    &&& forall|i: int|
        0 <= i < a.len() ==> (#[trigger] a[i]).conn_id@ == b[i].conn_id@ && a[i].is_closed
            == b[i].is_closed
}

} // verus!
