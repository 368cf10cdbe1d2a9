use easytier::multipath_scheduler::{
    EpochPlan, PathSnapshot, PathWeight, RedundancyMode,
};
use easytier::num::double::F64;
use easytier::peer::routes::{
    compute_default_ids, path_id, LbSelector, RedundancyState,
};
use easytier::peer::sending::Outcome;
use easytier::peer::{Error, Peer, PeerConnInfo};

fn d(x: f64) -> F64 {
    F64::from_bits(x.to_bits())
}

fn v(x: F64) -> f64 {
    f64::from_bits(x.to_bits())
}

fn path(conn: u128, srtt: u32, bw: f64) -> (u128, PathSnapshot) {
    let mut p = PathSnapshot::new(path_id(conn));
    p.srtt_ms = easytier::num::single::F32::from_u32(srtt);
    p.bw_est_bps = d(bw);
    (conn, p)
}

fn refresh(peer: &mut Peer, now_ms: u64, paths: &Vec<(u128, PathSnapshot)>) {
    let gates: Vec<F64> =
        peer.gate_exponents(now_ms, paths).iter().map(|x| d(v(*x).exp())).collect();
    peer.refresh_epoch_plan(now_ms, paths, &gates);
}

const A: u128 = 0x1111_0000_0000_0000_0000_0000_0000_0001;
const B: u128 = 0x2222_0000_0000_0000_0000_0000_0000_0002;
const C: u128 = 0x3333_0000_0000_0000_0000_0000_0000_0003;

#[test]
fn closed_connections_are_taken_out() {
    let mut local = Peer::new(1);
    let mut remote = Peer::new(2);
    local.add_peer_conn(A, false);
    remote.add_peer_conn(B, false);
    let open = |conn: u128| PeerConnInfo {
        conn_id: uuid::Uuid::from_u128(conn).to_string(),
        is_closed: false,
    };
    assert_eq!(local.list_peer_conns(&vec![open(A)]).unwrap().open.len(), 1);
    assert_eq!(remote.list_peer_conns(&vec![open(B)]).unwrap().open.len(), 1);
    // the local side closes its connection; the remote side sees its own closed
    assert_eq!(local.close_peer_conn(A), Ok(()));
    assert!(local.remove_peer_conn(A));
    let mut closed = open(B);
    closed.is_closed = true;
    let listing = remote.list_peer_conns(&vec![closed]).unwrap();
    assert!(listing.open.is_empty());
    assert_eq!(listing.close, vec![B]);
    assert!(remote.remove_peer_conn(B));
    assert!(remote.list_peer_conns(&vec![]).unwrap().open.is_empty());
    assert_eq!(local.close_peer_conn(A), Err(Error::NotFound));
    assert!(!local.remove_peer_conn(A));
}

#[test]
fn listings_need_identifiers_of_closed_connections() {
    let mut peer = Peer::new(1);
    peer.add_peer_conn(A, false);
    let info = |text: &str, is_closed: bool| PeerConnInfo { conn_id: text.to_string(), is_closed };
    let text = uuid::Uuid::from_u128(A).to_string();
    assert_eq!(peer.list_peer_conns(&vec![info("none", false)]).unwrap().open.len(), 1);
    assert!(peer.list_peer_conns(&vec![info("none", true)]).is_none());
    // a closed connection that is no longer in the table needs no closing
    let other = uuid::Uuid::from_u128(B).to_string();
    let listing = peer
        .list_peer_conns(&vec![info(&text, true), info(&other, true), info(&other, false)])
        .unwrap();
    assert_eq!(listing.close, vec![A]);
    assert_eq!(listing.open.len(), 1);
    assert_eq!(listing.open[0].conn_id, other);
    let sorted = peer.sort_reports(
        &vec![info("x", true), info("y", false), info("z", true)],
        &vec![Some(A), Some(A), None],
    );
    assert_eq!(sorted.close, vec![A]);
    assert_eq!(sorted.open[0].conn_id, "y");
}

#[test]
fn direct_connections_are_those_without_hole_punching() {
    let mut peer = Peer::new(1);
    assert!(!peer.has_directly_connected_conn());
    peer.add_peer_conn(A, true);
    assert!(!peer.has_directly_connected_conn());
    assert!(peer.get_directly_connections().is_empty());
    peer.add_peer_conn(B, false);
    peer.add_peer_conn(C, false);
    assert!(peer.has_directly_connected_conn());
    let direct = peer.get_directly_connections();
    assert_eq!(direct.len(), 2);
    assert!(direct.contains(&B) && direct.contains(&C) && !direct.contains(&A));
}

#[test]
fn paths_are_named_by_the_low_half() {
    assert_eq!(path_id(A), 1);
    assert_eq!(path_id(u128::MAX), u64::MAX);
}

#[test]
fn plans_set_the_routes() {
    let mut peer = Peer::new(9);
    assert_eq!(peer.node_id(), 9);
    assert!(peer.needs_plan());
    assert!(!peer.awaits_plan());
    assert_eq!(peer.get_default_conn_id(), 0);
    for c in [A, B] {
        peer.add_peer_conn(c, false);
    }
    assert!(peer.awaits_plan());
    let paths = vec![path(A, 50, 1e6), path(B, 100, 1e6)];
    refresh(&mut peer, 1000, &paths);
    assert!(!peer.needs_plan() && !peer.awaits_plan());
    assert_eq!(peer.get_default_conn_id(), A);
    // the lightest draw takes the fast path, and its partner while the budget lasts
    for _ in 0..32 {
        assert_eq!(peer.select_conns(d(0.0), 1200), vec![A, B]);
    }
    assert_eq!(peer.select_conns(d(0.0), 1200), vec![A]);
    assert_eq!(peer.select_conns(d(0.999999), 1200), vec![B]);
    // the next epoch has a budget of its own, which ends with it
    refresh(&mut peer, 2000, &paths);
    assert_eq!(peer.select_conns(d(0.999999), 2200), vec![B, A]);
    assert_eq!(peer.select_conns(d(0.999999), 2201), vec![B]);
    assert_eq!(peer.select_conns(d(0.999999), 2100), vec![B]);
}

#[test]
fn removed_connections_are_not_selected() {
    let mut peer = Peer::new(9);
    for c in [A, B] {
        peer.add_peer_conn(c, false);
    }
    let paths = vec![path(A, 50, 1e6), path(B, 100, 1e6)];
    refresh(&mut peer, 0, &paths);
    assert!(peer.remove_peer_conn(B));
    assert_eq!(peer.select_conns(d(0.0), 100), vec![A]);
    assert!(peer.select_conns(d(0.999999), 100).is_empty());
    refresh(&mut peer, 200, &vec![]);
    assert!(peer.needs_plan());
    assert_eq!(peer.get_default_conn_id(), 0);
    // without a plan any connection will do
    assert_eq!(peer.select_conns(d(0.5), 300), vec![A]);
    assert!(peer.remove_peer_conn(A));
    assert!(peer.select_conns(d(0.5), 300).is_empty());
}

#[test]
fn without_a_plan_every_connection_is_chosen_at_times() {
    let mut peer = Peer::new(9);
    for c in [A, B, C] {
        peer.add_peer_conn(c, false);
    }
    let mut seen = std::collections::BTreeSet::new();
    for _ in 0..400 {
        let conns = peer.select_conns(d(0.5), 0);
        assert_eq!(conns.len(), 1);
        seen.insert(conns[0]);
    }
    assert_eq!(seen.into_iter().collect::<Vec<u128>>(), vec![A, B, C]);
}

fn plan(weights: &[(u64, f64)], redundancy: RedundancyMode) -> EpochPlan {
    EpochPlan {
        valid_until_ms: 500,
        lb_weights: weights.iter().map(|w| PathWeight { id: w.0, weight: d(w.1) }).collect(),
        redundancy,
    }
}

#[test]
fn selectors_are_cumulative() {
    let paths = vec![path(A, 50, 1e6), path(B, 50, 1e6), path(C, 50, 1e6)];
    let p = plan(&[(1, 0.25), (9, 0.5), (2, f64::NAN), (3, 0.75)], RedundancyMode::Off);
    let selector = LbSelector::for_plan(&p, &paths).unwrap();
    let entries: Vec<(u128, f64)> = selector.entries.iter().map(|e| (e.0, v(e.1))).collect();
    assert_eq!(entries, vec![(A, 0.25), (C, 1.0)]);
    assert_eq!(selector.draw(&d(0.0)), Some(A));
    assert_eq!(selector.draw(&d(0.25)), Some(A));
    assert_eq!(selector.draw(&d(0.26)), Some(C));
    assert_eq!(selector.draw(&d(f64::NAN)), Some(C));
    assert!(LbSelector::for_plan(&plan(&[(1, 0.0), (2, -1.0)], RedundancyMode::Off), &paths).is_none());
    assert_eq!(LbSelector { entries: vec![] }.draw(&d(0.5)), None);
}

#[test]
fn steps_of_a_selector_are_the_shares() {
    let paths = vec![path(A, 50, 1e6), path(B, 50, 1e6), path(C, 50, 1e6)];
    let p = plan(&[(1, 0.2), (2, 0.3), (3, 0.5)], RedundancyMode::Off);
    let selector = LbSelector::for_plan(&p, &paths).unwrap();
    let values: Vec<f64> = selector.entries.iter().map(|e| v(e.1)).collect();
    assert_eq!(values, vec![0.2, 0.5, 1.0]);
    let tiny = plan(&[(1, 2.9), (2, 2.8), (3, 1e-20)], RedundancyMode::Off);
    let selector = LbSelector::for_plan(&tiny, &paths).unwrap();
    let values: Vec<f64> = selector.entries.iter().map(|e| v(e.1)).collect();
    assert!(values[0] < values[1] && values[1] <= 1.0 + 1e-15);
    assert_eq!(values[2], 1.0);
}

#[test]
fn defaults_follow_the_heaviest_weight() {
    let paths = vec![path(A, 50, 1e6), path(B, 50, 1e6), path(C, 50, 1e6)];
    let pair = |x: u64, y: u64| RedundancyMode::ShortIdleCritical {
        duplicate_first_n: 1,
        pair: (x, y),
        budget_pkts: 4,
    };
    let weights = [(1, 0.2), (2, 0.4), (3, 0.4)];
    assert_eq!(compute_default_ids(&plan(&weights, RedundancyMode::Off), &paths), vec![C]);
    assert_eq!(compute_default_ids(&plan(&weights, pair(1, 3)), &paths), vec![C, A]);
    assert_eq!(compute_default_ids(&plan(&weights, pair(3, 2)), &paths), vec![C, B]);
    assert_eq!(compute_default_ids(&plan(&weights, pair(1, 2)), &paths), vec![C]);
    assert_eq!(compute_default_ids(&plan(&weights, pair(3, 8)), &paths), vec![C]);
    assert!(compute_default_ids(&plan(&[(8, 1.0)], pair(1, 2)), &paths).is_empty());
    assert!(compute_default_ids(&plan(&[], pair(1, 2)), &paths).is_empty());
}

#[test]
fn budgets_are_spent_one_by_one() {
    let paths = vec![path(A, 50, 1e6), path(B, 50, 1e6)];
    let mode = RedundancyMode::Percentage {
        percent: easytier::num::single::F32::from_u32(1),
        pair: (1, 2),
        budget_pkts: 2,
    };
    let mut st = RedundancyState::for_plan(&plan(&[(1, 1.0)], mode), &paths);
    assert_eq!(st.take(500, C), None);
    assert_eq!(st.take(500, A), Some(B));
    assert_eq!(st.take(500, B), Some(A));
    assert_eq!(st.take(500, A), None);
    assert_eq!(st.remaining_pkts, 0);
    let mut late = RedundancyState::for_plan(&plan(&[(1, 1.0)], mode), &paths);
    assert_eq!(late.take(501, A), None);
    assert_eq!(late.take(500, A), None);
    let mut off = RedundancyState::for_plan(&plan(&[(1, 1.0)], RedundancyMode::Off), &paths);
    assert_eq!(off.take(0, A), None);
    assert_eq!(RedundancyState::default().valid_until_ms, 0);
}

#[test]
fn packets_are_sent_if_one_copy_is_taken() {
    let peer = Peer::new(5);
    assert_eq!(peer.send_msg(&vec![]).unwrap_err(), Error::PeerNoConnectionError(5));
    let mut one = peer.send_msg(&vec![A]).unwrap();
    assert_eq!(one.on_result(true), Outcome::Sent);
    let mut one = peer.send_msg(&vec![A]).unwrap();
    assert_eq!(one.on_result(false), Outcome::Refused);
    let mut two = peer.send_msg(&vec![A, B]).unwrap();
    assert_eq!(two.on_result(false), Outcome::Pending);
    assert_eq!(two.on_result(true), Outcome::Sent);
    let mut two = peer.send_msg(&vec![A, B]).unwrap();
    assert_eq!(two.on_result(false), Outcome::Pending);
    assert_eq!(two.on_result(false), Outcome::Failed(Error::PeerNoConnectionError(5)));
}

#[test]
fn peers_keep_their_identifier() {
    let mut peer = Peer::new(77);
    assert_eq!(peer.peer_node_id, 77);
    peer.add_peer_conn(A, false);
    refresh(&mut peer, 5, &vec![path(A, 50, 1e6)]);
    peer.select_conns(d(0.5), 6);
    peer.remove_peer_conn(A);
    assert_eq!(peer.peer_node_id, 77);
    assert_eq!(peer.node_id(), 77);
}
