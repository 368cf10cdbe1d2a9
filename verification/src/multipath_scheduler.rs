//! An online scheduler over several paths.
//!
//! Each epoch the scheduler turns snapshots of the paths into load-balancing weights
//! and a plan for redundant sending. A path's weight grows with its bandwidth and its
//! free bandwidth-delay product, and shrinks with loss, with queueing beyond a target,
//! and with an arrival time so late that packets would be reordered.
use vstd::prelude::*;

use crate::num::double::{fraction, of_whole, signed, F64};
use crate::num::single::{of_whole_32, F32};

pub mod candidate;
pub mod copies;
pub mod delays;
pub mod factors;
pub mod filters;
pub mod guards;
pub mod holdings;
pub mod laws;
pub mod least;
pub mod losses;
pub mod pick;
pub mod plan;
pub mod proportions;
pub mod scores;
pub mod terms;
pub mod weights;

verus! {

/// The identifier of a path.
pub type PathId = u64;

/// What is known of a path at one moment.
#[derive(Clone, Copy, Debug)]
pub struct PathSnapshot {
    pub id: PathId,
    /// Smoothed round-trip time, in milliseconds.
    pub srtt_ms: F32,
    /// Variation of the round-trip time, in milliseconds.
    pub rttvar_ms: F32,
    /// Smallest round-trip time, in milliseconds.
    pub min_rtt_ms: F32,
    /// Estimated bandwidth, in bytes per second.
    pub bw_est_bps: F64,
    /// Share of packets lost, between zero and one.
    pub loss_rate: F32,
    /// Bytes sent and not yet acknowledged.
    pub inflight_bytes: u32,
    /// Milliseconds since something was last sent.
    pub last_tx_age_ms: u32,
    pub active: bool,
}

impl PathSnapshot {
    /// The path is active and has bandwidth.
    pub open spec fn usable(self) -> bool {
        self.active && signed(false, 0).less(self.bw_est_bps)
    }

    /// The time that the bytes in flight take at the estimated bandwidth.
    pub open spec fn queue_delay(self) -> F64 {
        if self.bw_est_bps.at_most(signed(false, 0)) {
            signed(false, 0)
        } else {
            of_whole(self.inflight_bytes as nat).quot(self.bw_est_bps).prod(of_whole(1000))
        }
    }

    /// What the bandwidth-delay product leaves beside the bytes in flight.
    pub open spec fn headroom(self) -> F64 {
        self.bw_est_bps.prod(self.min_rtt_ms.widened().quot(of_whole(1000))).diff(
            of_whole(self.inflight_bytes as nat),
        ).larger(signed(false, 0))
    }

    /// The time that a packet takes on the wire at the estimated bandwidth.
    pub open spec fn serialization(self, packet_len: nat) -> F64 {
        if signed(false, 0).less(self.bw_est_bps) {
            of_whole(packet_len).quot(self.bw_est_bps).prod(of_whole(1000))
        } else {
            signed(false, 0)
        }
    }

    /// When a packet sent now arrives: after the queue, its own serialization and half a
    /// round trip.
    pub open spec fn eta(self, now_ms: nat, packet_len: nat) -> F64 {
        of_whole(now_ms).sum(self.queue_delay()).sum(self.serialization(packet_len)).sum(
            fraction(1, 2).prod(self.srtt_ms.widened()),
        )
    }

    /// An idle path of middling quality.
    pub fn new(id: PathId) -> (r: PathSnapshot)
        ensures
            r.id == id,
            r.srtt_ms == of_whole_32(50),
            r.rttvar_ms == of_whole_32(10),
            r.min_rtt_ms == of_whole_32(40),
            r.bw_est_bps == of_whole(1_000_000),
            r.loss_rate == of_whole_32(0),
            r.inflight_bytes == 0,
            r.last_tx_age_ms == 0,
            r.active,
    {
        PathSnapshot {
            id,
            srtt_ms: F32::from_u32(50),
            rttvar_ms: F32::from_u32(10),
            min_rtt_ms: F32::from_u32(40),
            bw_est_bps: F64::from_u64(1_000_000),
            loss_rate: F32::from_u32(0),
            inflight_bytes: 0,
            last_tx_age_ms: 0,
            active: true,
        }
    }

    /// Whether packets can be sent over the path.
    pub fn is_usable(&self) -> (r: bool)
        ensures
            r == self.usable(),
    {
        self.active && F64::zero().lt(&self.bw_est_bps)
    }

    /// The queueing delay, in milliseconds.
    pub fn queue_delay_ms(&self) -> (r: F64)
        ensures
            r == self.queue_delay(),
    {
        if self.bw_est_bps.le(&F64::zero()) {
            F64::zero()
        } else {
            F64::from_u64(self.inflight_bytes as u64).over(&self.bw_est_bps).times(
                &F64::from_u64(1000),
            )
        }
    }

    /// The free part of the bandwidth-delay product, in bytes.
    pub fn headroom_bytes(&self) -> (r: F64)
        ensures
            r == self.headroom(),
    {
        let bdp = self.bw_est_bps.times(&self.min_rtt_ms.widen().over(&F64::from_u64(1000)));
        bdp.minus(&F64::from_u64(self.inflight_bytes as u64)).max(&F64::zero())
    }

    /// The estimated time of arrival of a packet, in milliseconds.
    pub fn estimate_eta(&self, now_ms: u64, packet_len: usize) -> (r: F64)
        ensures
            r == self.eta(now_ms as nat, packet_len as nat),
    {
        let serialize_ms = if F64::zero().lt(&self.bw_est_bps) {
            F64::from_u64(packet_len as u64).over(&self.bw_est_bps).times(&F64::from_u64(1000))
        } else {
            F64::zero()
        };
        let queue_delay = self.queue_delay_ms();
        F64::from_u64(now_ms).plus(&queue_delay).plus(&serialize_ms).plus(
            &F64::ratio(1, 2).times(&self.srtt_ms.widen()),
        )
    }
}

/// The input of a decision for one packet.
#[derive(Clone, Debug)]
pub struct PickInput {
    pub now_ms: u64,
    pub packet_len: usize,
    /// Bytes that the flow has sent, which tell short flows from long ones.
    pub flow_bytes_sent: u64,
    /// The application marks the packet as critical.
    pub critical: bool,
    pub paths: Vec<PathSnapshot>,
}

impl PickInput {
    /// The first packet of an ordinary flow.
    pub fn new(packet_len: usize, paths: Vec<PathSnapshot>) -> (r: PickInput)
        ensures
            r.now_ms == 0,
            r.packet_len == packet_len,
            r.flow_bytes_sent == 0,
            !r.critical,
            r.paths == paths,
    {
        PickInput { now_ms: 0, packet_len, flow_bytes_sent: 0, critical: false, paths }
    }
}

/// Where a packet is sent.
#[derive(Clone, Copy, Debug, PartialEq, Eq, Structural)]
pub struct Decision {
    pub primary: PathId,
    /// The path for a second copy.
    pub redundant: Option<PathId>,
}

impl Decision {
    /// One copy, over one path.
    pub fn primary_only(path_id: PathId) -> (r: Decision)
        ensures
            r.primary == path_id,
            r.redundant is None,
    {
        Decision { primary: path_id, redundant: None }
    }

    /// Two copies, over two paths.
    pub fn with_redundant(primary: PathId, redundant: PathId) -> (r: Decision)
        ensures
            r.primary == primary,
            r.redundant == Some(redundant),
    {
        Decision { primary, redundant: Some(redundant) }
    }
}

/// The share of the load that a path gets.
#[derive(Clone, Copy, Debug)]
pub struct PathWeight {
    pub id: PathId,
    /// Between zero and one; the weights of a plan add up to one.
    pub weight: F64,
}

/// The input of a plan for one epoch.
#[derive(Clone, Debug)]
pub struct EpochInput {
    pub now_ms: u64,
    pub epoch_ms: u32,
    /// The length of a typical packet.
    pub packet_len_hint: usize,
    pub paths: Vec<PathSnapshot>,
    /// The weights of the epoch before, for smoothing.
    pub prev_weights: Option<Vec<PathWeight>>,
}

/// The contents of an optional list of weights.
pub open spec fn contents(weights: Option<Vec<PathWeight>>) -> Option<Seq<PathWeight>> {
    match weights {
        Some(v) => Some(v@),
        None => None,
    }
}

/// The contents of an input.
pub struct Epoch {
    pub now_ms: nat,
    pub epoch_ms: nat,
    pub packet_len_hint: nat,
    pub paths: Seq<PathSnapshot>,
    pub prev_weights: Option<Seq<PathWeight>>,
}

impl View for EpochInput {
    type V = Epoch;

    open spec fn view(&self) -> Epoch {
        Epoch {
            now_ms: self.now_ms as nat,
            epoch_ms: self.epoch_ms as nat,
            packet_len_hint: self.packet_len_hint as nat,
            paths: self.paths@,
            prev_weights: contents(self.prev_weights),
        }
    }
}

/// When packets are sent twice.
#[derive(Clone, Copy, Debug)]
pub enum RedundancyMode {
    Off,
    /// The first packets of short flows, after idle times, and critical packets.
    ShortIdleCritical { duplicate_first_n: u8, pair: (PathId, PathId), budget_pkts: u32 },
    /// A share of all packets.
    Percentage { percent: F32, pair: (PathId, PathId), budget_pkts: u32 },
}

/// The plan for one epoch.
#[derive(Clone, Debug)]
pub struct EpochPlan {
    pub valid_until_ms: u64,
    pub lb_weights: Vec<PathWeight>,
    pub redundancy: RedundancyMode,
}

/// The contents of a plan.
pub struct Plan {
    pub valid_until_ms: nat,
    pub weights: Seq<PathWeight>,
    pub redundancy: RedundancyMode,
}

impl View for EpochPlan {
    type V = Plan;

    open spec fn view(&self) -> Plan {
        Plan {
            valid_until_ms: self.valid_until_ms as nat,
            weights: self.lb_weights@,
            redundancy: self.redundancy,
        }
    }
}

/// The parameters of the scheduler.
#[derive(Clone, Copy, Debug)]
pub struct Config {
    /// Weight of the bandwidth in a score.
    pub w1_bw: F64,
    /// Weight of the headroom over the delay in a score.
    pub w2_headroom: F64,
    /// Weight of the loss in a score.
    pub w3_loss: F64,
    /// Weight of the queueing delay beyond the target in a score.
    pub w4_qdelay: F64,
    /// Target queueing delay, in milliseconds.
    pub target_qdelay_ms: u32,
    /// Up to this many bytes sent, a flow is short.
    pub short_flow_thresh: u64,
    /// From this many milliseconds without sending, a path is idle.
    pub idle_burst_ms: u32,
    /// Upper bound of the reordering budget, in milliseconds.
    pub blest_delta_cap_ms: u32,
    /// Switch for the reordering budget.
    pub enable_blest: bool,
    /// Switch for the queueing penalty.
    pub enable_qaware: bool,
    /// Switch for redundant sending.
    pub enable_redundancy: bool,
    /// Strength of the loss penalty.
    pub loss_gamma: F64,
    /// Strength of the queueing penalty.
    pub qaware_beta: F64,
    /// Time constant of the reordering gate, in milliseconds.
    pub blest_tau_ms: F64,
    /// Strength of the headroom bonus.
    pub headroom_k: F64,
    /// Upper bound of the headroom bonus.
    pub headroom_cap: F64,
    /// Share of the new value in the smoothing of weights.
    pub smooth_alpha: F64,
    /// Least share of each path, where there is enough for all of them.
    pub min_share: F64,
    /// Least weight of a path that takes part in redundant sending.
    pub redundancy_min_weight: F64,
    /// Redundant packets per epoch.
    pub redundancy_epoch_budget_pkts: u32,
}

/// The parameters that a scheduler has unless others are set.
pub open spec fn default_config() -> Config {
    Config {
        w1_bw: of_whole(1),
        w2_headroom: fraction(4, 5),
        w3_loss: fraction(6, 5),
        w4_qdelay: fraction(1, 20),
        target_qdelay_ms: 10,
        short_flow_thresh: 131072,
        idle_burst_ms: 250,
        blest_delta_cap_ms: 25,
        enable_blest: true,
        enable_qaware: true,
        enable_redundancy: true,
        loss_gamma: of_whole(1),
        qaware_beta: fraction(3, 5),
        blest_tau_ms: of_whole(20),
        headroom_k: fraction(1, 2),
        headroom_cap: fraction(3, 2),
        smooth_alpha: fraction(3, 5),
        min_share: signed(false, 0),
        redundancy_min_weight: fraction(1, 20),
        redundancy_epoch_budget_pkts: 32,
    }
}

/// The parameters for a first deployment: every guard is off.
pub open spec fn conservative_config() -> Config {
    Config {
        enable_blest: false,
        enable_qaware: false,
        enable_redundancy: false,
        ..default_config()
    }
}

/// The parameters for low delay.
pub open spec fn aggressive_config() -> Config {
    Config {
        w1_bw: fraction(3, 2),
        w2_headroom: of_whole(1),
        w3_loss: of_whole(2),
        w4_qdelay: fraction(1, 10),
        target_qdelay_ms: 5,
        short_flow_thresh: 262144,
        ..default_config()
    }
}

impl Default for Config {
    fn default() -> (r: Config)
        ensures
            r == default_config(),
    {
        Config {
            w1_bw: F64::from_u64(1),
            w2_headroom: F64::ratio(4, 5),
            w3_loss: F64::ratio(6, 5),
            w4_qdelay: F64::ratio(1, 20),
            target_qdelay_ms: 10,
            short_flow_thresh: 128 * 1024,
            idle_burst_ms: 250,
            blest_delta_cap_ms: 25,
            enable_blest: true,
            enable_qaware: true,
            enable_redundancy: true,
            loss_gamma: F64::from_u64(1),
            qaware_beta: F64::ratio(3, 5),
            blest_tau_ms: F64::from_u64(20),
            headroom_k: F64::ratio(1, 2),
            headroom_cap: F64::ratio(3, 2),
            smooth_alpha: F64::ratio(3, 5),
            min_share: F64::zero(),
            redundancy_min_weight: F64::ratio(1, 20),
            redundancy_epoch_budget_pkts: 32,
        }
    }
}

impl Config {
    /// Parameters for a first deployment: every guard is off.
    pub fn conservative() -> (r: Config)
        ensures
            r == conservative_config(),
            r == (Config {
                enable_blest: false,
                enable_qaware: false,
                enable_redundancy: false,
                ..default_config()
            }),
    {
        let base: Config = Default::default();
        Config { enable_blest: false, enable_qaware: false, enable_redundancy: false, ..base }
    }

    /// Parameters for low delay.
    pub fn aggressive() -> (r: Config)
        ensures
            r == aggressive_config(),
            r == (Config {
                w1_bw: fraction(3, 2),
                w2_headroom: of_whole(1),
                w3_loss: of_whole(2),
                w4_qdelay: fraction(1, 10),
                target_qdelay_ms: 5,
                short_flow_thresh: 262144,
                ..default_config()
            }),
    {
        let base: Config = Default::default();
        Config {
            w1_bw: F64::ratio(3, 2),
            w2_headroom: F64::from_u64(1),
            w3_loss: F64::from_u64(2),
            w4_qdelay: F64::ratio(1, 10),
            target_qdelay_ms: 5,
            short_flow_thresh: 256 * 1024,
            ..base
        }
    }
}

/// The multipath scheduler.
#[derive(Clone, Copy, Debug)]
pub struct Scheduler {
    pub cfg: Config,
}

/// What a scheduler reports of itself.
#[derive(Clone, Copy, Debug)]
pub struct SchedulerStats {
    pub config: Config,
}

impl Scheduler {
    /// A scheduler with the given parameters.
    pub fn new(cfg: Config) -> (r: Scheduler)
        ensures
            r.cfg == cfg,
    {
        Scheduler { cfg }
    }

    /// A copy of the current parameters.
    pub fn get_config(&self) -> (r: Config)
        ensures
            r == self.cfg,
    {
        self.cfg
    }

    /// Replaces the parameters; the next plan uses the new ones.
    pub fn update_config(&mut self, cfg: Config)
        ensures
            final(self).cfg == cfg,
    {
        self.cfg = cfg;
    }

    /// The statistics of the scheduler.
    pub fn stats(&self) -> (r: SchedulerStats)
        ensures
            r.config == self.cfg,
    {
        SchedulerStats { config: self.get_config() }
    }
}

} // verus!
