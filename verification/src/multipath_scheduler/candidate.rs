//! Candidates: the usable paths of an input with their arrival times, and their order.
use vstd::prelude::*;

use crate::multipath_scheduler::{Config, PathId, PathSnapshot};
use crate::num::double::{of_whole, signed, F64};
use crate::num::single::F32;

verus! {

/// A usable path, ready to be scored and ordered.
#[derive(Clone, Copy, Debug)]
pub struct Candidate {
    pub id: PathId,
    /// The place of the path in the input.
    pub slot: usize,
    pub srtt_ms: F32,
    pub queue_delay_ms: F64,
    /// Estimated time of arrival, in milliseconds.
    pub eta_ms: F64,
    pub score: F64,
}

/// The score of a path: bandwidth and headroom count for it; loss, and queueing beyond
/// the target, against it.
pub open spec fn base_score(cfg: Config, path: PathSnapshot) -> F64 {
    signed(false, 0).sum(cfg.w1_bw.prod(path.bw_est_bps.larger(of_whole(1)))).sum(
        cfg.w2_headroom.prod(path.headroom().quot(path.srtt_ms.widened().larger(of_whole(1)))),
    ).diff(cfg.w3_loss.prod(path.loss_rate.widened())).diff(
        cfg.w4_qdelay.prod(
            path.queue_delay().diff(of_whole(cfg.target_qdelay_ms as nat)).larger(signed(false, 0)),
        ),
    )
}

/// The candidate that a path makes.
pub open spec fn candidate(
    cfg: Config,
    now_ms: nat,
    packet_len: nat,
    path: PathSnapshot,
    slot: usize,
) -> Candidate {
    Candidate {
        id: path.id,
        slot,
        srtt_ms: path.srtt_ms,
        queue_delay_ms: path.queue_delay(),
        eta_ms: path.eta(now_ms, packet_len),
        score: base_score(cfg, path),
    }
}

/// The candidates that the usable paths make, in the order of the input.
pub open spec fn candidates(
    cfg: Config,
    now_ms: nat,
    packet_len: nat,
    paths: Seq<PathSnapshot>,
) -> Seq<Candidate>
    decreases paths.len(),
{
    if paths.len() == 0 {
        seq![]
    } else {
        let before = candidates(cfg, now_ms, packet_len, paths.drop_last());
        if paths.last().usable() {
            before.push(
                candidate(cfg, now_ms, packet_len, paths.last(), (paths.len() - 1) as usize),
            )
        } else {
            before
        }
    }
}

/// `c` put in its place among candidates in order of arrival, behind those that arrive
/// no later.
pub open spec fn inserted(sorted: Seq<Candidate>, c: Candidate) -> Seq<Candidate>
    decreases sorted.len(),
{
    if sorted.len() == 0 || sorted.last().eta_ms.rank() <= c.eta_ms.rank() {
        sorted.push(c)
    } else {
        inserted(sorted.drop_last(), c).push(sorted.last())
    }
}

/// The candidates in order of arrival; those that arrive together keep their order.
pub open spec fn by_eta(cs: Seq<Candidate>) -> Seq<Candidate>
    decreases cs.len(),
{
    if cs.len() == 0 {
        seq![]
    } else {
        inserted(by_eta(cs.drop_last()), cs.last())
    }
}

proof fn lemma_inserted_at(sorted: Seq<Candidate>, c: Candidate, at: int)
    requires
        0 <= at <= sorted.len(),
        forall|j: int| at <= j < sorted.len() ==> sorted[j].eta_ms.rank() > c.eta_ms.rank(),
        at > 0 ==> sorted[at - 1].eta_ms.rank() <= c.eta_ms.rank(),
    ensures
        inserted(sorted, c) == sorted.insert(at, c),
    decreases sorted.len(),
{
    if at == sorted.len() {
        assert(sorted.push(c) =~= sorted.insert(at, c));
    } else {
        lemma_inserted_at(sorted.drop_last(), c, at);
        assert(sorted.drop_last().insert(at, c).push(sorted.last()) =~= sorted.insert(at, c));
    }
}

/// The candidate that a path makes.
pub fn make_candidate(
    cfg: &Config,
    now_ms: u64,
    packet_len: usize,
    path: &PathSnapshot,
    slot: usize,
) -> (r: Candidate)
    ensures
        r == candidate(*cfg, now_ms as nat, packet_len as nat, *path, slot),
{
    let bw = path.bw_est_bps.max(&F64::from_u64(1));
    let queue_delay_ms = path.queue_delay_ms();
    let eta_ms = path.estimate_eta(now_ms, packet_len);
    let headroom = path.headroom_bytes();
    let delay = path.srtt_ms.widen().max(&F64::from_u64(1));
    let over = queue_delay_ms.minus(&F64::from_u64(cfg.target_qdelay_ms as u64)).max(&F64::zero());
    let score = F64::zero().plus(&cfg.w1_bw.times(&bw)).plus(
        &cfg.w2_headroom.times(&headroom.over(&delay)),
    ).minus(&cfg.w3_loss.times(&path.loss_rate.widen())).minus(&cfg.w4_qdelay.times(&over));
    Candidate { id: path.id, slot, srtt_ms: path.srtt_ms, queue_delay_ms, eta_ms, score }
}

/// The candidates of an input.
pub fn usable_candidates(
    cfg: &Config,
    now_ms: u64,
    packet_len: usize,
    paths: &Vec<PathSnapshot>,
) -> (r: Vec<Candidate>)
    ensures
        r@ == candidates(*cfg, now_ms as nat, packet_len as nat, paths@),
{
    let mut out: Vec<Candidate> = Vec::new();
    let mut i: usize = 0;
    assert(paths@.take(0) =~= seq![]);
    while i < paths.len()
        invariant
            i <= paths.len(),
            out@ == candidates(*cfg, now_ms as nat, packet_len as nat, paths@.take(i as int)),
        decreases paths.len() - i,
    {
        let path = &paths[i];
        proof {
            assert(paths@.take(i + 1).drop_last() =~= paths@.take(i as int));
        }
        if path.is_usable() {
            out.push(make_candidate(cfg, now_ms, packet_len, path, i));
        }
        i = i + 1;
    }
    assert(paths@.take(i as int) =~= paths@);
    out
}

/// Sorts candidates by their time of arrival and keeps the order of those that arrive
/// together.
pub fn sort_by_eta(cs: &Vec<Candidate>) -> (r: Vec<Candidate>)
    ensures
        r@ == by_eta(cs@),
        r.len() == cs.len(),
{
    let mut out: Vec<Candidate> = Vec::new();
    let mut i: usize = 0;
    assert(cs@.take(0) =~= seq![]);
    while i < cs.len()
        invariant
            i <= cs.len(),
            out.len() == i,
            out@ == by_eta(cs@.take(i as int)),
        decreases cs.len() - i,
    {
        let c = cs[i];
        let mut at: usize = out.len();
        while at > 0 && !out[at - 1].eta_ms.total_le(&c.eta_ms)
            invariant
                at <= out.len(),
                forall|j: int|
                    at <= j < out.len() ==> #[trigger] out@[j].eta_ms.rank() > c.eta_ms.rank(),
            decreases at,
        {
            at = at - 1;
        }
        proof {
            assert(cs@.take(i + 1).drop_last() =~= cs@.take(i as int));
            lemma_inserted_at(out@, c, at as int);
        }
        out.insert(at, c);
        i = i + 1;
    }
    assert(cs@.take(i as int) =~= cs@);
    out
}

/// Candidates in order of arrival.
pub open spec fn in_order(cs: Seq<Candidate>) -> bool {
    forall|i: int, j: int|
        0 <= i < j < cs.len() ==> (#[trigger] cs[i]).eta_ms.rank() <= (#[trigger] cs[j]).eta_ms.rank()
}

/// Candidates that arrive together stand in the order of their slots.
pub open spec fn stable(cs: Seq<Candidate>) -> bool {
    forall|i: int, j: int|
        0 <= i < j < cs.len() && (#[trigger] cs[i]).eta_ms.rank() == (
        #[trigger] cs[j]).eta_ms.rank() ==> cs[i].slot < cs[j].slot
}

/// Every slot is below `n`.
pub open spec fn slots_below(cs: Seq<Candidate>, n: int) -> bool {
    forall|i: int| 0 <= i < cs.len() ==> (#[trigger] cs[i]).slot < n
}

proof fn lemma_inserted(sorted: Seq<Candidate>, c: Candidate)
    requires
        in_order(sorted),
        stable(sorted),
        slots_below(sorted, c.slot as int),
    ensures
        in_order(inserted(sorted, c)),
        stable(inserted(sorted, c)),
        inserted(sorted, c).to_multiset() == sorted.to_multiset().insert(c),
        inserted(sorted, c).len() == sorted.len() + 1,
    decreases sorted.len(),
{
    broadcast use vstd::seq_lib::group_to_multiset_ensures;

    if sorted.len() == 0 || sorted.last().eta_ms.rank() <= c.eta_ms.rank() {
        let r = sorted.push(c);
        assert forall|i: int, j: int| 0 <= i < j < r.len() implies (
        #[trigger] r[i]).eta_ms.rank() <= (#[trigger] r[j]).eta_ms.rank() by {
            if j == sorted.len() && i < sorted.len() - 1 {
                assert(sorted[i].eta_ms.rank() <= sorted[sorted.len() - 1].eta_ms.rank());
            }
        }
    } else {
        let front = sorted.drop_last();
        let last = sorted.last();
        lemma_inserted(front, c);
        let s = inserted(front, c);
        let r = s.push(last);
        assert(sorted =~= front.push(last));
        assert forall|i: int| 0 <= i < s.len() implies (#[trigger] s[i]).eta_ms.rank()
            <= last.eta_ms.rank() && (s[i].eta_ms.rank() == last.eta_ms.rank() ==> s[i].slot
            < last.slot) by {
            assert(s.to_multiset().count(s[i]) > 0) by {
                assert(s.contains(s[i]));
            }
            if s[i] != c {
                assert(front.to_multiset().count(s[i]) > 0);
                assert(front.contains(s[i]));
                let k = choose|k: int| 0 <= k < front.len() && front[k] == s[i];
                assert(sorted[k].eta_ms.rank() <= sorted[sorted.len() - 1].eta_ms.rank());
            }
        }
        assert(r.to_multiset() =~= sorted.to_multiset().insert(c));
    }
}

/// Sorting candidates by their time of arrival rearranges them, puts earlier arrivals
/// first, and leaves those that arrive together in the order of the input.
pub proof fn law_sorting_is_stable(cs: Seq<Candidate>)
    requires
        forall|i: int, j: int|
            0 <= i < j < cs.len() ==> (#[trigger] cs[i]).slot < (#[trigger] cs[j]).slot,
    ensures
        by_eta(cs).len() == cs.len(),
        by_eta(cs).to_multiset() == cs.to_multiset(),
        in_order(by_eta(cs)),
        stable(by_eta(cs)),
    decreases cs.len(),
{
    broadcast use vstd::seq_lib::group_to_multiset_ensures;

    if cs.len() == 0 {
        assert(by_eta(cs) =~= cs);
    } else {
        let front = cs.drop_last();
        law_sorting_is_stable(front);
        let s = by_eta(front);
        assert forall|i: int| 0 <= i < s.len() implies (#[trigger] s[i]).slot < cs.last().slot by {
            assert(s.contains(s[i]));
            assert(front.to_multiset().count(s[i]) > 0);
            assert(front.contains(s[i]));
            let k = choose|k: int| 0 <= k < front.len() && front[k] == s[i];
            assert(cs[k].slot < cs[cs.len() - 1].slot);
        }
        lemma_inserted(s, cs.last());
        assert(cs =~= front.push(cs.last()));
        assert(by_eta(cs).to_multiset() =~= cs.to_multiset());
    }
}

/// The candidates of an input are what its usable paths make, one for each, in the order
/// of the input.
pub proof fn law_candidates_are_the_usable_paths(
    cfg: Config,
    now_ms: nat,
    packet_len: nat,
    paths: Seq<PathSnapshot>,
)
    requires
        paths.len() <= usize::MAX,
    ensures
        ({
            let cs = candidates(cfg, now_ms, packet_len, paths);
            &&& cs.len() <= paths.len()
            &&& forall|i: int|
                0 <= i < cs.len() ==> {
                    let c = #[trigger] cs[i];
                    &&& c.slot < paths.len()
                    &&& paths[c.slot as int].usable()
                    &&& c == candidate(cfg, now_ms, packet_len, paths[c.slot as int], c.slot)
                }
            &&& forall|i: int, j: int|
                0 <= i < j < cs.len() ==> (#[trigger] cs[i]).slot < (#[trigger] cs[j]).slot
            &&& forall|k: int|
                0 <= k < paths.len() && (#[trigger] paths[k]).usable() ==> cs.contains(
                    candidate(cfg, now_ms, packet_len, paths[k], k as usize),
                )
        }),
    decreases paths.len(),
{
    if paths.len() > 0 {
        let front = paths.drop_last();
        law_candidates_are_the_usable_paths(cfg, now_ms, packet_len, front);
        let before = candidates(cfg, now_ms, packet_len, front);
        let cs = candidates(cfg, now_ms, packet_len, paths);
        let last = candidate(cfg, now_ms, packet_len, paths.last(), (paths.len() - 1) as usize);
        assert forall|i: int| 0 <= i < cs.len() implies {
            let c = #[trigger] cs[i];
            &&& c.slot < paths.len()
            &&& paths[c.slot as int].usable()
            &&& c == candidate(cfg, now_ms, packet_len, paths[c.slot as int], c.slot)
        } by {
            if i < before.len() {
                assert(cs[i] == before[i]);
                assert(front[cs[i].slot as int] == paths[cs[i].slot as int]);
            }
        }
        assert forall|i: int, j: int| 0 <= i < j < cs.len() implies (#[trigger] cs[i]).slot < (
        #[trigger] cs[j]).slot by {
            assert(cs[i] == before[i]);
            if j < before.len() {
                assert(cs[j] == before[j]);
            }
        }
        assert forall|k: int| 0 <= k < paths.len() && (#[trigger] paths[k]).usable() implies cs.contains(
            candidate(cfg, now_ms, packet_len, paths[k], k as usize),
        ) by {
            if k < front.len() {
                assert(front[k].usable());
                let c = candidate(cfg, now_ms, packet_len, paths[k], k as usize);
                let m = choose|m: int| 0 <= m < before.len() && before[m] == c;
                assert(cs[m] == c);
            } else {
                assert(cs[before.len() as int] == last);
            }
        }
    }
}

} // verus!
