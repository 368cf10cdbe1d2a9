use easytier::multipath_scheduler::candidate::{sort_by_eta, usable_candidates, Candidate};
use easytier::multipath_scheduler::pick::epoch_input;
use easytier::multipath_scheduler::{
    Config, Decision, EpochInput, EpochPlan, PathId, PathSnapshot, PathWeight, PickInput,
    RedundancyMode, Scheduler,
};
use easytier::num::double::F64;
use easytier::num::single::F32;

fn d(x: f64) -> F64 {
    F64::from_bits(x.to_bits())
}

fn s(x: f32) -> F32 {
    F32::from_bits(x.to_bits())
}

fn v(x: F64) -> f64 {
    f64::from_bits(x.to_bits())
}

fn create_test_path(id: PathId, srtt_ms: f32, bw_mbps: f64, loss_rate: f32) -> PathSnapshot {
    PathSnapshot {
        id,
        srtt_ms: s(srtt_ms),
        rttvar_ms: s(srtt_ms * 0.2),
        min_rtt_ms: s(srtt_ms * 0.8),
        bw_est_bps: d(bw_mbps * 1_000_000.0),
        loss_rate: s(loss_rate),
        inflight_bytes: 0,
        last_tx_age_ms: 0,
        active: true,
    }
}

fn gates(scheduler: &Scheduler, input: &EpochInput) -> Vec<F64> {
    scheduler.blest_exponents(input).iter().map(|x| d(v(*x).exp())).collect()
}

fn compute_plan(scheduler: &Scheduler, input: &EpochInput) -> Option<EpochPlan> {
    scheduler.compute_plan(input, &gates(scheduler, input))
}

fn pick_path(scheduler: &Scheduler, input: &PickInput) -> Option<Decision> {
    let epoch = epoch_input(input);
    scheduler.pick_path(input, &gates(scheduler, &epoch))
}

fn epoch(paths: Vec<PathSnapshot>) -> EpochInput {
    EpochInput { now_ms: 0, epoch_ms: 200, packet_len_hint: 1500, paths, prev_weights: None }
}

fn weight_of(plan: &EpochPlan, id: PathId) -> f64 {
    plan.lb_weights.iter().find(|w| w.id == id).map(|w| v(w.weight)).unwrap_or(0.0)
}

fn sum_weights(plan: &EpochPlan) -> f64 {
    plan.lb_weights.iter().map(|w| v(w.weight)).sum()
}

fn approx(a: f64, b: f64, eps: f64) -> bool {
    (a - b).abs() <= eps
}

#[test]
fn test_phase_a_filter_inactive() {
    let scheduler = Scheduler::new(Config::default());
    let mut path1 = create_test_path(1, 50.0, 1.0, 0.0);
    path1.active = false;
    let path2 = create_test_path(2, 100.0, 0.5, 0.0);
    let plan = compute_plan(&scheduler, &epoch(vec![path1, path2])).unwrap();
    assert_eq!(plan.lb_weights.len(), 1);
    assert_eq!(plan.lb_weights[0].id, 2);
    assert!(matches!(plan.redundancy, RedundancyMode::Off));
}

#[test]
fn test_phase_b_bandwidth_preference() {
    let scheduler = Scheduler::new(Config::default());
    let path1 = create_test_path(1, 50.0, 10.0, 0.0);
    let path2 = create_test_path(2, 50.0, 1.0, 0.0);
    let plan = compute_plan(&scheduler, &epoch(vec![path1, path2])).unwrap();
    let w1 = weight_of(&plan, 1);
    let w2 = weight_of(&plan, 2);
    assert!(w1 > w2, "w1={} w2={}", w1, w2);
    assert!(w1 > 0.6);
    assert!(approx(sum_weights(&plan), 1.0, 1e-6));
}

#[test]
fn test_phase_b_loss_penalty() {
    let scheduler = Scheduler::new(Config::default());
    let path1 = create_test_path(1, 50.0, 5.0, 0.10);
    let path2 = create_test_path(2, 50.0, 5.0, 0.00);
    let plan = compute_plan(&scheduler, &epoch(vec![path1, path2])).unwrap();
    assert!(weight_of(&plan, 2) > weight_of(&plan, 1));
}

#[test]
fn test_phase_c_blest_gating() {
    let mut cfg = Config::default();
    cfg.enable_blest = true;
    let scheduler = Scheduler::new(cfg);
    let path1 = create_test_path(1, 50.0, 1.0, 0.0);
    let path2 = create_test_path(2, 200.0, 1.0, 0.0);
    let plan = compute_plan(&scheduler, &epoch(vec![path1, path2])).unwrap();
    let w_fast = weight_of(&plan, 1);
    let w_slow = weight_of(&plan, 2);
    assert!(w_fast > w_slow);
    assert!(w_slow < 0.2, "w_slow={}", w_slow);
}

#[test]
fn test_phase_d_qaware_penalty() {
    let mut cfg = Config::default();
    cfg.enable_qaware = true;
    cfg.target_qdelay_ms = 10;
    let scheduler = Scheduler::new(cfg);
    let mut path1 = create_test_path(1, 50.0, 1.0, 0.0);
    path1.inflight_bytes = 100_000;
    let path2 = create_test_path(2, 50.0, 1.0, 0.0);
    let plan = compute_plan(&scheduler, &epoch(vec![path1, path2])).unwrap();
    assert!(weight_of(&plan, 2) > weight_of(&plan, 1));
}

#[test]
fn test_phase_e_redundancy_pair_by_eta() {
    let cfg = Config::default();
    let scheduler = Scheduler::new(cfg.clone());
    let path1 = create_test_path(1, 50.0, 1.0, 0.0);
    let path2 = create_test_path(2, 100.0, 1.0, 0.0);
    let plan = compute_plan(&scheduler, &epoch(vec![path1.clone(), path2.clone()])).unwrap();
    match plan.redundancy {
        RedundancyMode::ShortIdleCritical { pair, budget_pkts, .. } => {
            let ids = [pair.0, pair.1];
            assert!(ids.contains(&1) && ids.contains(&2));
            assert_eq!(budget_pkts, cfg.redundancy_epoch_budget_pkts);
        }
        RedundancyMode::Off => panic!("expected redundancy"),
        _ => {}
    }
}

#[test]
fn test_no_paths_available() {
    let scheduler = Scheduler::new(Config::default());
    let plan = compute_plan(&scheduler, &epoch(vec![]));
    assert!(plan.is_none());
}

#[test]
fn test_single_path() {
    let scheduler = Scheduler::new(Config::default());
    let path1 = create_test_path(1, 50.0, 1.0, 0.0);
    let plan = compute_plan(&scheduler, &epoch(vec![path1])).unwrap();
    assert_eq!(plan.lb_weights.len(), 1);
    assert_eq!(plan.lb_weights[0].id, 1);
    assert!(approx(v(plan.lb_weights[0].weight), 1.0, 1e-9));
    assert!(matches!(plan.redundancy, RedundancyMode::Off));
}

#[test]
fn test_config_hot_update() {
    let mut scheduler = Scheduler::new(Config::default());
    let mut new_cfg = Config::default();
    new_cfg.target_qdelay_ms = 20;
    scheduler.update_config(new_cfg);
    let cfg = scheduler.get_config();
    assert_eq!(cfg.target_qdelay_ms, 20);
    assert_eq!(scheduler.stats().config.target_qdelay_ms, 20);
}

#[test]
fn test_conservative_config() {
    let cfg = Config::conservative();
    assert!(!cfg.enable_blest);
    assert!(!cfg.enable_qaware);
    assert!(!cfg.enable_redundancy);
}

#[test]
fn test_aggressive_config() {
    let cfg = Config::aggressive();
    assert_eq!(cfg.target_qdelay_ms, 5);
    assert!(v(cfg.w3_loss) > 1.5);
}

#[test]
fn test_path_snapshot_helpers() {
    let path = create_test_path(1, 50.0, 1.0, 0.0);
    assert!(path.is_usable());
    assert!(v(path.queue_delay_ms()) >= 0.0);
    assert!(v(path.headroom_bytes()) >= 0.0);
    let eta = path.estimate_eta(1000, 1500);
    assert!(v(eta) > 1000.0);
}

#[test]
fn test_realistic_scenario_250ms_10pct_loss() {
    let scheduler = Scheduler::new(Config::default());
    let path1 = create_test_path(1, 50.0, 10.0, 0.05);
    let path2 = create_test_path(2, 250.0, 5.0, 0.10);
    let plan = compute_plan(&scheduler, &epoch(vec![path1, path2])).unwrap();
    assert!(weight_of(&plan, 1) > weight_of(&plan, 2));
}

#[test]
fn test_realistic_scenario_50ms_5pct_loss() {
    let scheduler = Scheduler::new(Config::default());
    let path1 = create_test_path(1, 50.0, 5.0, 0.05);
    let path2 = create_test_path(2, 50.0, 5.0, 0.05);
    let plan = compute_plan(&scheduler, &epoch(vec![path1, path2])).unwrap();
    let w1 = weight_of(&plan, 1);
    let w2 = weight_of(&plan, 2);
    assert!(w1 > 0.3 && w2 > 0.3);
    assert!((w1 - w2).abs() < 0.25, "w1={} w2={}", w1, w2);
}

#[test]
fn test_ema_smoothing() {
    let mut cfg = Config::default();
    cfg.smooth_alpha = d(0.6);
    let scheduler = Scheduler::new(cfg);
    let prev = vec![
        PathWeight { id: 1, weight: d(1.0) },
        PathWeight { id: 2, weight: d(0.0) },
    ];
    let p1 = create_test_path(1, 50.0, 1.0, 0.0);
    let p2 = create_test_path(2, 50.0, 100.0, 0.0);
    let mut input = epoch(vec![p1, p2]);
    input.prev_weights = Some(prev);
    let plan = compute_plan(&scheduler, &input).unwrap();
    let w1 = weight_of(&plan, 1);
    let w2 = weight_of(&plan, 2);
    assert!(w2 > w1);
    assert!(w2 < 0.9);
}

#[test]
fn test_min_share_floor() {
    let mut cfg = Config::default();
    cfg.min_share = d(0.05);
    let scheduler = Scheduler::new(cfg);
    let p1 = create_test_path(1, 50.0, 10.0, 0.0);
    let p2 = create_test_path(2, 50.0, 1.0, 0.0);
    let plan = compute_plan(&scheduler, &epoch(vec![p1, p2])).unwrap();
    for w in &plan.lb_weights {
        assert!(v(w.weight) >= 0.05 - 1e-6, "actual={:.6}", v(w.weight));
    }
    assert!(approx(sum_weights(&plan), 1.0, 1e-6));
}

#[test]
fn test_redundancy_weight_gate() {
    let mut cfg = Config::default();
    cfg.redundancy_min_weight = d(0.5);
    let scheduler = Scheduler::new(cfg);
    let p1 = create_test_path(1, 50.0, 10.0, 0.0);
    let p2 = create_test_path(2, 100.0, 1.0, 0.0);
    let plan = compute_plan(&scheduler, &epoch(vec![p1, p2])).unwrap();
    assert!(matches!(plan.redundancy, RedundancyMode::Off));
}

#[test]
fn test_short_flow_redundancy_detailed() {
    let mut cfg = Config::default();
    cfg.enable_redundancy = true;
    cfg.short_flow_thresh = 64 * 1024;
    cfg.blest_delta_cap_ms = 25;
    let scheduler = Scheduler::new(cfg);
    let path1 = create_test_path(1, 50.0, 10.0, 0.0);
    let path2 = create_test_path(2, 150.0, 5.0, 0.0);
    let input = PickInput {
        now_ms: 1000,
        packet_len: 1500,
        flow_bytes_sent: 1024,
        critical: false,
        paths: vec![path1.clone(), path2.clone()],
    };
    let eta1 = v(path1.estimate_eta(input.now_ms, input.packet_len));
    let eta2 = v(path2.estimate_eta(input.now_ms, input.packet_len));
    let eta_gap = eta2 - eta1;
    let delta = 0.25 * 50.0;
    assert!(eta_gap > delta);
    let decision = pick_path(&scheduler, &input).unwrap();
    assert_eq!(decision.primary, 1);
    assert!(decision.redundant.is_some());
    assert_eq!(decision.redundant.unwrap(), 2);
}

#[test]
fn test_idle_burst_redundancy_detailed() {
    let mut cfg = Config::default();
    cfg.enable_redundancy = true;
    cfg.idle_burst_ms = 250;
    cfg.blest_delta_cap_ms = 25;
    let idle_threshold = cfg.idle_burst_ms;
    let scheduler = Scheduler::new(cfg);
    let mut path1 = create_test_path(1, 50.0, 10.0, 0.0);
    path1.last_tx_age_ms = 300;
    let path2 = create_test_path(2, 150.0, 5.0, 0.0);
    let input = PickInput {
        now_ms: 1000,
        packet_len: 1500,
        flow_bytes_sent: 1_000_000,
        critical: false,
        paths: vec![path1.clone(), path2.clone()],
    };
    let eta1 = v(path1.estimate_eta(input.now_ms, input.packet_len));
    let eta2 = v(path2.estimate_eta(input.now_ms, input.packet_len));
    let eta_gap = eta2 - eta1;
    let delta = 0.25 * 50.0;
    assert!(eta_gap > delta);
    let decision = pick_path(&scheduler, &input).unwrap();
    let is_idle = path1.last_tx_age_ms >= idle_threshold;
    assert!(is_idle);
    assert!(decision.redundant.is_some());
}

#[test]
fn test_critical_packet_redundancy_detailed() {
    let mut cfg = Config::default();
    cfg.enable_redundancy = true;
    cfg.blest_delta_cap_ms = 25;
    let scheduler = Scheduler::new(cfg);
    let path1 = create_test_path(1, 50.0, 10.0, 0.0);
    let path2 = create_test_path(2, 150.0, 5.0, 0.0);
    let input = PickInput {
        now_ms: 1000,
        packet_len: 1500,
        flow_bytes_sent: 1_000_000,
        critical: true,
        paths: vec![path1.clone(), path2.clone()],
    };
    let eta1 = v(path1.estimate_eta(input.now_ms, input.packet_len));
    let eta2 = v(path2.estimate_eta(input.now_ms, input.packet_len));
    let eta_gap = eta2 - eta1;
    let delta = 0.25 * 50.0;
    assert!(eta_gap > delta);
    let decision = pick_path(&scheduler, &input).unwrap();
    assert!(input.critical);
    assert!(decision.redundant.is_some());
}

#[test]
fn test_redundancy_not_triggered_when_paths_similar() {
    let mut cfg = Config::default();
    cfg.enable_redundancy = true;
    cfg.short_flow_thresh = 64 * 1024;
    let scheduler = Scheduler::new(cfg);
    let path1 = create_test_path(1, 50.0, 10.0, 0.0);
    let path2 = create_test_path(2, 52.0, 9.5, 0.0);
    let input = PickInput {
        now_ms: 1000,
        packet_len: 1500,
        flow_bytes_sent: 1024,
        critical: false,
        paths: vec![path1.clone(), path2.clone()],
    };
    let eta1 = v(path1.estimate_eta(input.now_ms, input.packet_len));
    let eta2 = v(path2.estimate_eta(input.now_ms, input.packet_len));
    let eta_gap = (eta2 - eta1).abs();
    let delta = 0.25 * 50.0;
    assert!(eta_gap <= delta);
    let decision = pick_path(&scheduler, &input).unwrap();
    assert!(decision.redundant.is_none());
}

#[test]
fn test_long_flow_no_redundancy() {
    let mut cfg = Config::default();
    cfg.enable_redundancy = true;
    cfg.short_flow_thresh = 64 * 1024;
    let short_thresh = cfg.short_flow_thresh;
    let idle_thresh = cfg.idle_burst_ms;
    let scheduler = Scheduler::new(cfg);
    let path1 = create_test_path(1, 50.0, 10.0, 0.0);
    let path2 = create_test_path(2, 150.0, 5.0, 0.0);
    let input = PickInput {
        now_ms: 1000,
        packet_len: 1500,
        flow_bytes_sent: 1_000_000,
        critical: false,
        paths: vec![path1.clone(), path2.clone()],
    };
    let is_short = input.flow_bytes_sent <= short_thresh;
    let is_idle = input.paths.iter().any(|p| p.last_tx_age_ms >= idle_thresh);
    let decision = pick_path(&scheduler, &input).unwrap();
    assert!(!is_short && !is_idle && !input.critical);
    assert!(decision.redundant.is_none());
}

/// What the weights of a plan should be, in native arithmetic.
fn native_weights(cfg: &Config, input: &EpochInput) -> Vec<(u64, f64)> {
    let f = |x: F32| f32::from_bits(x.to_bits());
    let mut cs: Vec<(u64, f64, f64, f32)> = Vec::new();
    for p in input.paths.iter().filter(|p| p.active && v(p.bw_est_bps) > 0.0) {
        let bw = v(p.bw_est_bps);
        let queue = (p.inflight_bytes as f64 / bw) * 1000.0;
        let wire = (input.packet_len_hint as f64 / bw) * 1000.0;
        let eta = input.now_ms as f64 + queue + wire + 0.5 * f(p.srtt_ms) as f64;
        cs.push((p.id, queue, eta, f(p.srtt_ms)));
    }
    cs.sort_by(|a, b| a.2.total_cmp(&b.2));
    let delta = (0.25 * cs[0].3 as f64).clamp(4.0, cfg.blest_delta_cap_ms as f64);
    let limit = cs[0].2 + delta;
    let mut raws: Vec<f64> = Vec::new();
    for c in &cs {
        let p = input.paths.iter().find(|p| p.id == c.0).unwrap();
        let bw = v(p.bw_est_bps).max(1.0);
        let loss = (1.0 - v(cfg.loss_gamma) * f(p.loss_rate) as f64).clamp(0.2, 1.0);
        let target = cfg.target_qdelay_ms as f64;
        let queue = if !cfg.enable_qaware || c.1 <= target {
            1.0
        } else {
            1.0 / (1.0 + v(cfg.qaware_beta) * ((c.1 - target) / target).max(0.0))
        };
        let order = if !cfg.enable_blest || c.2 <= limit {
            1.0
        } else {
            f64::exp(-((c.2 - limit) / v(cfg.blest_tau_ms)))
        };
        let bdp = bw * (f(p.min_rtt_ms) as f64 / 1000.0);
        let room = (bdp - p.inflight_bytes as f64).max(0.0);
        let ratio = if bdp > 0.0 { room / bdp } else { 0.0 };
        let boost = (1.0 + v(cfg.headroom_k) * ratio.clamp(0.0, 1.0)).min(v(cfg.headroom_cap));
        let raw = bw * loss * queue * order * boost;
        raws.push(if raw < 1e-9 { 0.0 } else { raw });
    }
    let mut sum = 0.0;
    for r in &raws {
        sum += *r;
    }
    let mut ws: Vec<f64> = Vec::new();
    for (i, r) in raws.iter().enumerate() {
        let share = *r / sum;
        let before = input
            .prev_weights
            .as_ref()
            .and_then(|ws| ws.iter().find(|w| w.id == cs[i].0))
            .map(|w| v(w.weight));
        ws.push(match before {
            Some(p) => v(cfg.smooth_alpha) * share + (1.0 - v(cfg.smooth_alpha)) * p,
            None => share,
        });
    }
    let mut whole = 0.0;
    for w in ws.iter_mut() {
        if v(cfg.min_share) > 0.0 {
            *w = w.max(v(cfg.min_share));
        }
        whole += *w;
    }
    let even: Vec<f64> = ws.iter().map(|w| *w / whole).collect();
    let last = lifted(even, v(cfg.min_share));
    last.iter().enumerate().map(|(i, w)| (cs[i].0, *w)).collect()
}

/// Shares with the least share granted to each, in native arithmetic.
fn lifted(even: Vec<f64>, least: f64) -> Vec<f64> {
    let mut held: Vec<bool> = even.iter().map(|w| *w < least).collect();
    if least <= 0.0 || even.len() as f64 * least > 1.0 || !held.contains(&true) {
        return even;
    }
    loop {
        let taken = held.iter().filter(|h| **h).count() as f64 * least;
        let mut sum = 0.0;
        for (w, h) in even.iter().zip(held.iter()) {
            sum += if *h { 0.0 } else { *w };
        }
        let next: Vec<f64> = even
            .iter()
            .zip(held.iter())
            .map(|(w, h)| if *h { least } else { *w / sum * (1.0 - taken) })
            .collect();
        if next.iter().all(|w| *w >= least) {
            return next;
        }
        for (h, w) in held.iter_mut().zip(next.iter()) {
            *h = *h || *w < least;
        }
    }
}

#[test]
fn weights_agree_with_native_arithmetic_to_the_last_bit() {
    let mut state: u64 = 88172645463325252;
    let mut next = || {
        state ^= state << 13;
        state ^= state >> 7;
        state ^= state << 17;
        state
    };
    for round in 0..200 {
        let n = 2 + (next() % 5) as usize;
        let mut paths = Vec::new();
        for id in 0..n {
            let srtt = 1.0 + (next() % 300_000) as f32 / 1000.0;
            let bw = 0.1 + (next() % 100_000) as f64 / 1000.0;
            let loss = (next() % 100) as f32 / 300.0;
            let mut p = create_test_path(id as u64, srtt, bw, loss);
            p.inflight_bytes = (next() % 400_000) as u32;
            paths.push(p);
        }
        let mut cfg = Config::default();
        if round % 3 == 1 {
            cfg.min_share = d(0.05 + (round % 7) as f64 / 40.0);
        }
        if round % 4 == 2 {
            cfg.enable_qaware = false;
        }
        if round % 5 == 3 {
            cfg.enable_blest = false;
        }
        let scheduler = Scheduler::new(cfg);
        let mut input = epoch(paths);
        input.now_ms = next() % 1_700_000_000_000;
        if round % 2 == 1 {
            let first = compute_plan(&scheduler, &input).unwrap();
            input.prev_weights = Some(first.lb_weights);
        }
        let plan = compute_plan(&scheduler, &input).unwrap();
        let native = native_weights(&cfg, &input);
        assert_eq!(plan.lb_weights.len(), native.len());
        for (w, (id, x)) in plan.lb_weights.iter().zip(native.iter()) {
            assert_eq!(w.id, *id);
            assert_eq!(w.weight.to_bits(), x.to_bits());
            assert!(v(w.weight) >= 0.0 && v(w.weight) <= 1.0);
            assert!(n as f64 * v(cfg.min_share) > 1.0 || v(w.weight) >= v(cfg.min_share));
        }
        assert!(approx(sum_weights(&plan), 1.0, 1e-14));
        assert_eq!(plan.valid_until_ms, input.now_ms + 200);
    }
}

#[test]
fn exact_weights_of_two_paths() {
    let scheduler = Scheduler::new(Config::conservative());
    let a = create_test_path(1, 50.0, 3.0, 0.0);
    let b = create_test_path(2, 50.0, 1.0, 0.0);
    let plan = compute_plan(&scheduler, &epoch(vec![a, b])).unwrap();
    assert_eq!(weight_of(&plan, 1), 0.75);
    assert_eq!(weight_of(&plan, 2), 0.25);
}

#[test]
fn switch_turns_redundancy_off() {
    let a = create_test_path(1, 50.0, 1.0, 0.0);
    let b = create_test_path(2, 100.0, 1.0, 0.0);
    let on = compute_plan(&Scheduler::new(Config::default()), &epoch(vec![a, b])).unwrap();
    assert!(matches!(
        on.redundancy,
        RedundancyMode::ShortIdleCritical { duplicate_first_n: 1, pair: (1, 2), budget_pkts: 32 }
    ));
    let off = compute_plan(&Scheduler::new(Config::conservative()), &epoch(vec![a, b])).unwrap();
    assert!(matches!(off.redundancy, RedundancyMode::Off));
}

#[test]
fn paths_without_weight_fall_back_to_the_fastest() {
    let mut cfg = Config::default();
    cfg.headroom_cap = d(0.0);
    let scheduler = Scheduler::new(cfg);
    let slow = create_test_path(1, 90.0, 9.0, 0.0);
    let fast = create_test_path(2, 30.0, 1.0, 0.0);
    let plan = compute_plan(&scheduler, &epoch(vec![slow, fast])).unwrap();
    assert_eq!(plan.lb_weights.len(), 1);
    assert_eq!(plan.lb_weights[0].id, 2);
    assert_eq!(v(plan.lb_weights[0].weight), 1.0);
}

#[test]
fn helper_values_of_a_path() {
    let mut p = PathSnapshot::new(7);
    p.inflight_bytes = 10_000;
    assert_eq!(v(p.queue_delay_ms()), 10.0);
    assert_eq!(v(p.headroom_bytes()), 30_000.0);
    assert_eq!(v(p.estimate_eta(1000, 1500)), 1036.5);
    p.bw_est_bps = d(0.0);
    assert!(!p.is_usable());
    assert_eq!(v(p.queue_delay_ms()), 0.0);
    assert_eq!(v(p.estimate_eta(1000, 1500)), 1025.0);
    p.bw_est_bps = d(f64::NAN);
    assert!(!p.is_usable());
}

#[test]
fn decisions_are_compared_by_their_fields() {
    assert_eq!(Decision::primary_only(3), Decision { primary: 3, redundant: None });
    assert_eq!(Decision::with_redundant(3, 4), Decision { primary: 3, redundant: Some(4) });
    assert_ne!(Decision::primary_only(3), Decision::with_redundant(3, 4));
    let input = PickInput::new(100, vec![]);
    assert_eq!(input.packet_len, 100);
    assert!(pick_path(&Scheduler::new(Config::default()), &input).is_none());
}

fn candidate(id: u64, slot: usize, eta: f64, queue: f64) -> Candidate {
    Candidate {
        id,
        slot,
        srtt_ms: s(40.0),
        queue_delay_ms: d(queue),
        eta_ms: d(eta),
        score: d(100.0),
    }
}

fn ids(cs: &Vec<Candidate>) -> Vec<u64> {
    cs.iter().map(|c| c.id).collect()
}

#[test]
fn candidates_are_sorted_stably() {
    let cs = vec![
        candidate(1, 0, 30.0, 0.0),
        candidate(2, 1, 10.0, 0.0),
        candidate(3, 2, 30.0, 0.0),
        candidate(4, 3, 10.0, 0.0),
    ];
    assert_eq!(ids(&sort_by_eta(&cs)), vec![2, 4, 1, 3]);
    let signs = vec![candidate(1, 0, 0.0, 0.0), candidate(2, 1, -0.0, 0.0)];
    assert_eq!(ids(&sort_by_eta(&signs)), vec![2, 1]);
}

#[test]
fn scores_of_candidates() {
    let mut p = PathSnapshot::new(1);
    p.inflight_bytes = 20_000;
    let cs = usable_candidates(&Config::default(), 0, 1500, &vec![p]);
    let expected = 0.0 + 1.0 * 1_000_000.0 + 0.8 * (20_000.0 / 50.0) - 1.2 * 0.0 - 0.05 * 10.0;
    assert_eq!(v(cs[0].score), expected);
    assert_eq!(v(cs[0].queue_delay_ms), 20.0);
}

#[test]
fn filter_keeps_timely_candidates() {
    let scheduler = Scheduler::new(Config::default());
    let cfg = Config::default();
    let cs = vec![
        candidate(1, 0, 25.0, 0.0),
        candidate(2, 1, 10.0, 0.0),
        candidate(3, 2, 20.0, 0.0),
    ];
    assert_eq!(ids(&scheduler.apply_blest_filter(&cfg, &cs)), vec![2, 3]);
    assert!(scheduler.apply_blest_filter(&cfg, &vec![]).is_empty());
    let strange = vec![candidate(9, 0, f64::NAN, 0.0)];
    assert_eq!(ids(&scheduler.apply_blest_filter(&cfg, &strange)), vec![9]);
}

#[test]
fn penalty_spares_candidates_when_all_are_over_target() {
    let scheduler = Scheduler::new(Config::default());
    let cfg = Config::default();
    let mut mixed = vec![candidate(1, 0, 0.0, 30.0), candidate(2, 1, 0.0, 10.0)];
    scheduler.apply_qaware_penalty(&cfg, &mut mixed);
    assert_eq!(v(mixed[0].score), 100.0 - 0.05 * 20.0);
    assert_eq!(v(mixed[1].score), 100.0);
    let mut over = vec![candidate(1, 0, 0.0, 30.0), candidate(2, 1, 0.0, 11.0)];
    scheduler.apply_qaware_penalty(&cfg, &mut over);
    assert_eq!(v(over[0].score), 100.0);
    assert_eq!(v(over[1].score), 100.0);
}

#[test]
fn redundant_path_is_not_the_primary() {
    let scheduler = Scheduler::new(Config::default());
    let cfg = Config::default();
    let mut input = PickInput::new(1500, vec![]);
    let near = vec![candidate(1, 0, 10.0, 0.0), candidate(2, 1, 19.0, 0.0)];
    assert_eq!(scheduler.decide_redundancy(&cfg, &input, &near), None);
    let far = vec![candidate(1, 0, 10.0, 0.0), candidate(2, 1, 90.0, 0.0)];
    assert_eq!(scheduler.decide_redundancy(&cfg, &input, &far), Some(2));
    let second_first = vec![
        candidate(2, 0, 90.0, 0.0),
        candidate(1, 1, 10.0, 0.0),
        candidate(3, 2, 95.0, 0.0),
    ];
    assert_eq!(scheduler.decide_redundancy(&cfg, &input, &second_first), Some(3));
    assert_eq!(scheduler.decide_redundancy(&cfg, &input, &vec![far[1], far[0]]), None);
    input.flow_bytes_sent = 10_000_000;
    assert_eq!(scheduler.decide_redundancy(&cfg, &input, &far), None);
    input.critical = true;
    assert_eq!(scheduler.decide_redundancy(&cfg, &input, &far), Some(2));
    assert_eq!(scheduler.decide_redundancy(&cfg, &input, &vec![far[0]]), None);
}

#[test]
fn room_raises_the_weight_up_to_a_cap() {
    let mut cfg = Config::default();
    cfg.enable_qaware = false;
    cfg.enable_blest = false;
    let free = create_test_path(1, 50.0, 1.0, 0.0);
    let mut full = create_test_path(2, 50.0, 1.0, 0.0);
    full.inflight_bytes = 40_000;
    let plan = compute_plan(&Scheduler::new(cfg), &epoch(vec![free, full])).unwrap();
    assert_eq!(weight_of(&plan, 1), 1.5 / 2.5);
    assert_eq!(weight_of(&plan, 2), 1.0 / 2.5);
    cfg.headroom_cap = d(1.25);
    let plan = compute_plan(&Scheduler::new(cfg), &epoch(vec![free, full])).unwrap();
    assert_eq!(weight_of(&plan, 1), 1.25 / 2.25);
}

#[test]
fn loss_leaves_at_least_a_fifth() {
    let mut cfg = Config::default();
    cfg.enable_blest = false;
    let clean = create_test_path(1, 50.0, 1.0, 0.0);
    let lossy = create_test_path(2, 50.0, 1.0, 1.0);
    let plan = compute_plan(&Scheduler::new(cfg), &epoch(vec![clean, lossy])).unwrap();
    assert!(approx(weight_of(&plan, 2), 0.2 / 1.2, 1e-15));
}

#[test]
fn least_shares_are_granted() {
    let mut cfg = Config::conservative();
    cfg.min_share = d(0.3);
    let strong = create_test_path(1, 50.0, 9.0, 0.0);
    let weak = create_test_path(2, 50.0, 1.0, 0.0);
    let plan = compute_plan(&Scheduler::new(cfg), &epoch(vec![strong, weak])).unwrap();
    assert_eq!(weight_of(&plan, 1), 0.7);
    assert_eq!(weight_of(&plan, 2), 0.3);
    cfg.min_share = d(0.05);
    let plan = compute_plan(&Scheduler::new(cfg), &epoch(vec![strong, weak])).unwrap();
    assert_eq!(weight_of(&plan, 1), 0.9);
    assert_eq!(weight_of(&plan, 2), 0.1);
}

#[test]
fn shares_above_the_least_stay_as_they_are() {
    let mut cfg = Config::default();
    cfg.min_share = d(0.05);
    let p1 = create_test_path(1, 50.0, 10.0, 0.0);
    let p2 = create_test_path(2, 50.0, 1.0, 0.0);
    let plan = compute_plan(&Scheduler::new(cfg), &epoch(vec![p1, p2])).unwrap();
    assert!(approx(weight_of(&plan, 1), 10.0 / 11.0, 1e-15));
    assert!(approx(weight_of(&plan, 2), 1.0 / 11.0, 1e-15));
}

#[test]
fn granting_one_least_share_may_call_for_another() {
    let mut cfg = Config::conservative();
    cfg.min_share = d(0.22);
    let paths = vec![
        create_test_path(1, 50.0, 46.0, 0.0),
        create_test_path(2, 50.0, 27.0, 0.0),
        create_test_path(3, 50.0, 27.0, 0.0),
        create_test_path(4, 50.0, 0.000001, 0.0),
    ];
    let plan = compute_plan(&Scheduler::new(cfg), &epoch(paths)).unwrap();
    assert!(approx(weight_of(&plan, 1), 0.34, 1e-15));
    for id in 2..5 {
        assert_eq!(weight_of(&plan, id), 0.22);
    }
}

#[test]
fn least_shares_that_are_too_large_are_set_against_their_sum() {
    let mut cfg = Config::conservative();
    cfg.min_share = d(0.6);
    let strong = create_test_path(1, 50.0, 9.0, 0.0);
    let weak = create_test_path(2, 50.0, 1.0, 0.0);
    let plan = compute_plan(&Scheduler::new(cfg), &epoch(vec![strong, weak])).unwrap();
    assert!(approx(weight_of(&plan, 1), 0.6, 1e-15));
    assert!(approx(weight_of(&plan, 2), 0.4, 1e-15));
}

#[test]
fn least_shares_may_use_up_the_whole() {
    let mut cfg = Config::conservative();
    cfg.min_share = d(0.1);
    let paths: Vec<PathSnapshot> =
        (1..11).map(|id| create_test_path(id, 50.0, id as f64, 0.0)).collect();
    let plan = compute_plan(&Scheduler::new(cfg), &epoch(paths)).unwrap();
    for w in &plan.lb_weights {
        assert!(v(w.weight) >= 0.1 && approx(v(w.weight), 0.1, 1e-14));
    }
    assert!(approx(sum_weights(&plan), 1.0, 1e-14));
}

#[test]
fn loss_takes_weight_away() {
    let scheduler = Scheduler::new(Config::default());
    let mut before: Option<EpochPlan> = None;
    for percent in 0..80 {
        let lossy = create_test_path(1, 50.0, 2.0, percent as f32 / 100.0);
        let p2 = create_test_path(2, 60.0, 3.0, 0.1);
        let p3 = create_test_path(3, 90.0, 1.0, 0.0);
        let plan = compute_plan(&scheduler, &epoch(vec![lossy, p2, p3])).unwrap();
        if let Some(b) = before {
            assert!(weight_of(&plan, 1) < weight_of(&b, 1));
            for id in [2, 3] {
                assert!(weight_of(&plan, id) > weight_of(&b, id));
            }
            for (x, y) in plan.lb_weights.iter().zip(b.lb_weights.iter()) {
                assert_eq!(x.id, y.id);
            }
        }
        before = Some(plan);
    }
}

#[test]
fn heavy_losses_weigh_alike() {
    let scheduler = Scheduler::new(Config::default());
    let other = create_test_path(2, 60.0, 3.0, 0.1);
    let weights = |loss: f32| -> Vec<(u64, u64)> {
        let lossy = create_test_path(1, 50.0, 2.0, loss);
        let plan = compute_plan(&scheduler, &epoch(vec![lossy, other])).unwrap();
        plan.lb_weights.iter().map(|w| (w.id, w.weight.to_bits())).collect()
    };
    assert_eq!(weights(0.8), weights(0.9));
    assert_eq!(weights(0.8), weights(1.0));
    assert_ne!(weights(0.79), weights(0.8));
}
