use easytier::num::double::F64;
use easytier::num::single::F32;
use easytier::stats::bandwidth::BandwidthEstimator;
use easytier::stats::inflight::TimeBucketInFlight;
use easytier::stats::latency::WindowLatency;
use easytier::stats::throughput::Throughput;

const MS: u128 = 1_000_000;

fn d(x: f64) -> F64 {
    F64::from_bits(x.to_bits())
}

fn s(x: f32) -> F32 {
    F32::from_bits(x.to_bits())
}

fn v(x: F64) -> f64 {
    f64::from_bits(x.to_bits())
}

fn wait_ms(ms: u128) {
    let start = std::time::Instant::now();
    while start.elapsed().as_millis() < ms {}
}

fn measure(t: &mut Throughput, now_ms: u128, srtt: f64, rttvar: f64, minrtt: f64, loss: f64) {
    t.update_bw_estimate_at(now_ms * MS, d(srtt), d(rttvar), d(minrtt), d(loss));
}

#[test]
fn test_throughput_bw_estimate() {
    let mut throughput = Throughput::new();
    let initial_bw = v(throughput.get_bw_est_bps());
    assert_eq!(initial_bw, 30.0 * 1_000_000.0);
    for _ in 0..100 {
        throughput.record_tx_bytes_at(0, 10_000, true);
    }
    measure(&mut throughput, 100, 50.0, 10.0, 40.0, 0.0);
    let bw1 = v(throughput.get_bw_est_bps());
    let thr1 = v(throughput.get_recent_throughput_bps());
    assert!(bw1 > 0.0);
    assert!(thr1 > 5_000_000.0);
    for _ in 0..50 {
        throughput.record_tx_bytes_at(100 * MS, 10_000, true);
    }
    measure(&mut throughput, 200, 41.0, 5.0, 40.0, 0.0);
    let bw2 = v(throughput.get_bw_est_bps());
    assert!(bw2 > 0.0 && bw2 < 50.0 * 1_000_000.0, "{:.2}", bw2 / 1_000_000.0);
    assert_eq!(throughput.data_tx_bytes(), 1_500_000);
}

#[test]
fn test_throughput_recent_bytes() {
    let mut throughput = Throughput::new();
    throughput.record_tx_bytes_at(0, 100_000, true);
    assert_eq!(throughput.get_recent_tx_bytes_at(0), 100_000);
    throughput.record_tx_bytes_at(1 * MS, 50_000, true);
    assert_eq!(throughput.get_recent_tx_bytes_at(2 * MS), 150_000);
    let recent = throughput.get_recent_tx_bytes_at(2102 * MS);
    assert_eq!(recent, 0);
    throughput.record_tx_bytes_at(2103 * MS, 200_000, true);
    assert_eq!(throughput.get_recent_tx_bytes_at(2103 * MS), 200_000);
}

#[test]
fn test_throughput_inflight() {
    let mut throughput = Throughput::new();
    for _ in 0..10 {
        throughput.record_tx_bytes(1500, true);
    }
    let inflight = throughput.estimated_inflight_bytes(50, s(1.5));
    assert!(inflight > 0);
}

#[test]
fn test_bw_estimate_with_zero_traffic() {
    let mut throughput = Throughput::new();
    measure(&mut throughput, 100, 50.0, 10.0, 40.0, 0.0);
    let bw_after = v(throughput.get_bw_est_bps());
    assert!((bw_after - 30.0 * 1_000_000.0).abs() < 1_000_000.0, "{}", bw_after);
}

#[test]
fn test_bw_estimate_congestion() {
    let mut throughput = Throughput::new();
    for _ in 0..100 {
        throughput.record_tx_bytes_at(0, 10_000, true);
    }
    measure(&mut throughput, 100, 41.0, 5.0, 40.0, 0.0);
    let bw1 = v(throughput.get_bw_est_bps());
    for _ in 0..10 {
        throughput.record_tx_bytes_at(100 * MS, 10_000, true);
    }
    measure(&mut throughput, 200, 60.0, 15.0, 40.0, 0.005);
    let bw2 = v(throughput.get_bw_est_bps());
    assert!(bw2 < bw1);
}

#[test]
fn test_bw_estimate_path_change() {
    let mut throughput = Throughput::new();
    for _ in 0..100 {
        throughput.record_tx_bytes_at(0, 10_000, true);
    }
    measure(&mut throughput, 100, 50.0, 10.0, 40.0, 0.0);
    let bw1 = v(throughput.get_bw_est_bps());
    for _ in 0..50 {
        throughput.record_tx_bytes_at(100 * MS, 10_000, true);
    }
    measure(&mut throughput, 200, 130.0, 20.0, 120.0, 0.0);
    let bw2 = v(throughput.get_bw_est_bps());
    assert!(bw2 > 0.0 && bw2 != bw1);
}

/// The estimator in native arithmetic.
struct Native {
    b_hat: f64,
    last: u128,
    minrtt: f64,
    tx: u64,
    thr: f64,
}

impl Native {
    fn update(&mut self, now: u128, tx: u64, srtt: f64, rttvar: f64, minrtt: f64, loss: f64) {
        let nanos = now - self.last;
        let dt = (nanos / 1_000_000_000) as f64 + (nanos % 1_000_000_000) as f64 / 1e9;
        if dt < 0.1 {
            return;
        }
        let instant = tx.saturating_sub(self.tx) as f64 / dt;
        self.thr = if self.thr > 0.0 { 0.3 * instant + 0.7 * self.thr } else { instant };
        let base = minrtt.max(1.0);
        let qnorm = ((srtt - base).max(0.0) / base).min(5.0);
        if self.minrtt > 0.0 && (minrtt - self.minrtt).abs() > (3.0 * rttvar).max(20.0) {
            self.b_hat = (30.0 * 1_000_000.0 + self.b_hat) / 2.0;
        }
        self.minrtt = minrtt;
        if qnorm <= 0.05 && loss <= 0.002 {
            if self.thr > 0.0 {
                let cap = self.b_hat * (1.0 + 0.10 * dt);
                let target = (self.thr * 1.10).min(cap);
                self.b_hat = ((1.0 - 0.20) * self.b_hat + 0.20 * target).clamp(5e6, 1e9);
            }
        } else if qnorm < 0.20 && loss < 0.01 {
            let target = self.b_hat.max(self.thr);
            self.b_hat = ((1.0 - 0.20) * self.b_hat + 0.20 * target).clamp(5e6, 1e9);
        } else {
            let g_q = ((qnorm - 0.20) / (1.0 - 0.20)).clamp(0.0, 1.0);
            let g_p = (loss / 0.01).clamp(0.0, 1.0);
            let left = 1.0 - 0.30 * g_q.max(g_p);
            self.b_hat = (self.b_hat.max(self.thr) * left).clamp(5e6, 1e9);
        }
        self.last = now;
        self.tx = tx;
    }
}

#[test]
fn estimates_agree_with_native_arithmetic_to_the_last_bit() {
    let mut state: u64 = 123456789123;
    let mut next = || {
        state ^= state << 13;
        state ^= state >> 7;
        state ^= state << 17;
        state
    };
    for _ in 0..50 {
        let mut e = BandwidthEstimator::new();
        let mut n = Native { b_hat: 30e6, last: 0, minrtt: 0.0, tx: 0, thr: 0.0 };
        let (mut now, mut tx) = (0u128, 0u64);
        for _ in 0..60 {
            now += (next() % 700_000_000) as u128;
            tx += next() % 40_000_000;
            let minrtt = 20.0 + (next() % 100) as f64;
            let srtt = minrtt * (1.0 + (next() % 300) as f64 / 1000.0);
            let rttvar = (next() % 30) as f64;
            let loss = (next() % 150) as f64 / 10_000.0;
            e.update_at(now, tx, d(srtt), d(rttvar), d(minrtt), d(loss));
            n.update(now, tx, srtt, rttvar, minrtt, loss);
            assert_eq!(e.get_bw_bps().to_bits(), n.b_hat.to_bits());
            assert_eq!(e.get_recent_throughput_bps().to_bits(), n.thr.to_bits());
            assert!(n.b_hat >= 5e6 && n.b_hat <= 1e9);
        }
    }
}

#[test]
fn estimates_change_after_a_tenth_of_a_second() {
    let mut e = BandwidthEstimator::default();
    e.update_at(99_999_999, 1_000_000, d(100.0), d(1.0), d(40.0), d(0.5));
    assert_eq!(v(e.get_bw_bps()), 30e6);
    assert_eq!(v(e.get_recent_throughput_bps()), 0.0);
    e.update_at(100_000_000, 1_000_000, d(100.0), d(1.0), d(40.0), d(0.5));
    assert_eq!(v(e.get_recent_throughput_bps()), 10_000_000.0);
    assert_eq!(v(e.get_bw_bps()), 30e6 * (1.0 - 0.30 * 1.0));
    let copy = e.clone();
    assert_eq!(copy.get_bw_bps().to_bits(), e.get_bw_bps().to_bits());
}

#[test]
fn estimates_stay_numbers_whatever_is_measured() {
    let mut e = BandwidthEstimator::new();
    let odd = [f64::NAN, f64::INFINITY, f64::NEG_INFINITY, -1.0, 0.0, f64::MAX, 1e-300];
    let mut now = 0u128;
    for a in odd {
        for b in odd {
            for c in odd {
                now += 150 * MS;
                e.update_at(now, u64::MAX, d(a), d(b), d(c), d(b));
                let bw = v(e.get_bw_bps());
                assert!(bw >= 5e6 && bw <= 1e9);
            }
        }
    }
}

#[test]
fn idle_clean_windows_keep_the_estimate() {
    let mut e = BandwidthEstimator::new();
    e.update_at(500 * MS, 0, d(40.0), d(1.0), d(40.0), d(0.0));
    assert_eq!(v(e.get_bw_bps()), 30e6);
}

#[test]
fn growth_is_a_tenth_per_second() {
    let mut e = BandwidthEstimator::new();
    e.update_at(1000 * MS, 900_000_000, d(40.0), d(1.0), d(40.0), d(0.0));
    assert_eq!(v(e.get_bw_bps()), (1.0 - 0.20) * 30e6 + 0.20 * (30e6 * (1.0 + 0.10 * 1.0)));
    assert!(v(e.get_bw_bps()) <= 33e6);
}

#[test]
fn clocked_estimates_are_read() {
    let mut e = BandwidthEstimator::new();
    e.update(1000, d(40.0), d(1.0), d(40.0), d(0.0));
    assert_eq!(v(e.get_bw_bps()), 30e6);
    wait_ms(120);
    e.update(1_000_000, d(40.0), d(1.0), d(40.0), d(0.5));
    assert!(v(e.get_recent_throughput_bps()) > 0.0);
    assert!(v(e.get_bw_bps()) < 30e6);
}

#[test]
fn windows_hold_the_last_latencies() {
    let mut w = WindowLatency::new(3);
    assert_eq!(w.get_latency_us::<u32>(), 0);
    assert_eq!(w.get_rttvar_us(), 0);
    assert_eq!(w.get_min_rtt_us(), 0);
    assert_eq!(w.last_response_age_at(5), 0xffff_ffff);
    assert_eq!(w.get_last_response_age_ms::<u64>(), 0xffff_ffff);
    w.record_latency_at(10, 100);
    w.record_latency_at(20, 200);
    assert_eq!(w.get_latency_us::<u64>(), 150);
    w.record_latency_at(30, 600);
    w.record_latency_at(40, 400);
    assert_eq!(w.mean_us(), 400);
    assert_eq!(w.get_latency_us::<f64>(), 400.0);
    assert_eq!(w.get_min_rtt_us(), 200);
    // the squared distances are 0, 40000 and 40000
    assert_eq!(w.get_rttvar_us(), 163);
    assert_eq!(w.last_response_age_at(100), 60);
}

#[test]
fn means_are_given_in_several_number_types() {
    let mut w = WindowLatency::new(2);
    assert_eq!(w.get_latency_us::<u32>(), 0);
    for us in [900u32, 40, 61] {
        w.record_latency_at(1, us);
    }
    assert_eq!(w.get_latency_us::<u32>(), 50);
    assert_eq!(w.get_latency_us::<u64>(), 50);
    assert_eq!(w.get_latency_us::<f64>(), 50.5);
    assert_eq!(w.mean_us(), 50);
}

#[test]
fn zero_latencies_do_not_count_for_the_minimum() {
    let mut w = WindowLatency::new(4);
    w.record_latency(0);
    assert_eq!(w.get_min_rtt_us(), 0);
    w.record_latency(70);
    assert_eq!(w.get_min_rtt_us(), 70);
    w.record_latency(u32::MAX);
    assert_eq!(w.get_min_rtt_us(), 70);
    assert!(w.get_last_response_age_ms::<u64>() < 10_000);
}

#[test]
fn sums_of_latencies_wrap() {
    let mut w = WindowLatency::new(2);
    w.record_latency_at(0, u32::MAX);
    w.record_latency_at(0, 11);
    assert_eq!(w.mean_us(), 5);
}

#[test]
fn buckets_count_what_is_sent() {
    let mut b = TimeBucketInFlight::new(10, 4);
    b.on_send_at(0, 100);
    b.on_send_at(5 * MS, 50);
    assert_eq!(b.estimate_inflight_at(5 * MS, 0, s(1.0)), 150);
    b.on_send_at(12 * MS, 7);
    assert_eq!(b.estimate_inflight_at(12 * MS, 10, s(1.0)), 7);
    assert_eq!(b.estimate_inflight_at(12 * MS, 20, s(1.0)), 157);
    assert_eq!(b.estimate_inflight_at(12 * MS, 10, s(2.0)), 157);
    assert_eq!(b.estimate_inflight_at(12 * MS, 10, s(f32::NAN)), 7);
    assert_eq!(b.estimate_inflight_at(39 * MS, 1000, s(1.0)), 157);
    assert_eq!(b.estimate_inflight_at(40 * MS, 1000, s(1.0)), 7);
    assert_eq!(b.estimate_inflight_at(1000 * MS, 1000, s(1.0)), 0);
    b.on_send_at(1000 * MS, usize::MAX);
    b.on_send_at(1000 * MS, usize::MAX);
    assert_eq!(b.estimate_inflight_at(1000 * MS, 10, s(1.0)), u64::MAX);
}

#[test]
fn clocked_buckets_move_on() {
    let mut b = TimeBucketInFlight::new(5, 2);
    b.on_send(1000);
    assert!(b.estimate_inflight(10, s(1.0)) <= 1000);
    wait_ms(30);
    b.advance_to_now();
    assert_eq!(b.estimate_inflight(10, s(1.0)), 0);
}

#[test]
fn counters_hold_what_was_counted() {
    let mut t = Throughput::default();
    t.record_tx_bytes_at(3 * MS, 10, true);
    t.record_tx_bytes_at(5 * MS, 20, false);
    t.record_rx_bytes_at(7 * MS, 100, false);
    t.record_rx_bytes_at(8 * MS, 200, true);
    t.record_rx_bytes_at(9 * MS, 300, true);
    assert_eq!((t.tx_bytes(), t.tx_packets(), t.data_tx_bytes(), t.data_tx_packets()), (30, 2, 10, 1));
    assert_eq!((t.rx_bytes(), t.rx_packets(), t.data_rx_bytes(), t.data_rx_packets()), (600, 3, 500, 2));
    assert_eq!(t.last_tx_age_ms_at(25 * MS), 20);
    assert_eq!(t.last_rx_age_ms_at(25 * MS), 16);
    assert_eq!(t.get_recent_rx_bytes_at(9 * MS), 600);
    assert_eq!(t.get_recent_rx_bytes_at(1999 * MS), 600);
    assert_eq!(t.get_recent_rx_bytes_at(2000 * MS), 0);
    t.record_rx_bytes_at(4001 * MS, 9, true);
    assert_eq!(t.get_recent_rx_bytes_at(4001 * MS), 9);
    assert_eq!(t.estimated_inflight_bytes_at(5 * MS, 50, s(1.5)), 10);
}

#[test]
fn copies_of_counters_have_nothing_in_flight() {
    let mut t = Throughput::new();
    t.record_tx_bytes(1500, true);
    t.record_rx_bytes(700, false);
    let mut copy = t.clone();
    assert_eq!(copy.tx_bytes(), 1500);
    assert_eq!(copy.rx_bytes(), 700);
    assert_eq!(copy.get_recent_tx_bytes(), 1500);
    assert_eq!(copy.get_recent_rx_bytes(), 700);
    assert_eq!(copy.estimated_inflight_bytes(50, s(1.5)), 0);
    assert!(t.last_tx_age_ms() < 10_000);
    assert!(t.last_rx_age_ms() < 10_000);
    t.update_bw_estimate(d(40.0), d(1.0), d(40.0), d(0.0));
    assert_eq!(v(t.get_bw_est_bps()), 30e6);
}

#[test]
fn clean_windows_end_at_the_cap() {
    let mut e = BandwidthEstimator::new();
    let (mut now, mut tx) = (0u128, 0u64);
    for _ in 0..4000 {
        now += 1000 * MS;
        tx += 5_000_000_000;
        e.update_at(now, tx, d(40.0), d(1.0), d(40.0), d(0.0));
        assert!(v(e.get_bw_bps()) <= 1e9);
    }
    assert_eq!(v(e.get_bw_bps()), 1e9);
}

#[test]
fn no_window_ends_above_the_cap() {
    let mut neutral = BandwidthEstimator::new();
    neutral.update_at(1000 * MS, 10_000_000_000, d(19.0), d(1.0), d(16.0), d(0.0));
    assert_eq!(v(neutral.get_bw_bps()), 1e9);
    let mut congested = BandwidthEstimator::new();
    congested.update_at(1000 * MS, 10_000_000_000, d(64.0), d(1.0), d(16.0), d(0.0));
    assert_eq!(v(congested.get_bw_bps()), 1e9);
    congested.update_at(2000 * MS, 10_000_000_000, d(64.0), d(1.0), d(160.0), d(1.0));
    assert!(v(congested.get_bw_bps()) <= 1e9);
}

#[test]
fn estimates_do_not_fall_below_the_floor() {
    let mut e = BandwidthEstimator::new();
    for k in 1..100u128 {
        e.update_at(k * 1000 * MS, 0, d(400.0), d(1.0), d(40.0), d(1.0));
    }
    assert_eq!(v(e.get_bw_bps()), 5e6);
    e.update_at(101 * 1000 * MS, 0, d(44.0), d(1.0), d(40.0), d(0.0));
    assert_eq!(v(e.get_bw_bps()), 5e6);
}

#[test]
fn time_passes_in_steps() {
    let mut steps = TimeBucketInFlight::new(10, 8);
    let mut once = TimeBucketInFlight::new(10, 8);
    steps.on_send_at(0, 500);
    once.on_send_at(0, 500);
    for t in [3u128, 11, 19, 20, 37, 58] {
        steps.estimate_inflight_at(t * MS, 10, s(1.0));
    }
    for srtt in [10u32, 20, 50, 60, 80] {
        assert_eq!(
            steps.estimate_inflight_at(58 * MS, srtt, s(1.0)),
            once.estimate_inflight_at(58 * MS, srtt, s(1.0)),
        );
    }
    assert_eq!(once.estimate_inflight_at(58 * MS, 60, s(1.0)), 500);
    assert_eq!(once.estimate_inflight_at(58 * MS, 50, s(1.0)), 0);
}

#[test]
fn recent_bytes_are_of_two_seconds() {
    let mut state: u64 = 42;
    let mut next = |n: u64| {
        state ^= state << 13;
        state ^= state >> 7;
        state ^= state << 17;
        state % n
    };
    for _ in 0..50 {
        let mut t = Throughput::new();
        let mut received: Vec<(u128, u64)> = Vec::new();
        let mut now = 0u128;
        for _ in 0..40 {
            now += next(900) as u128 * MS;
            match next(4) {
                0 => t.record_tx_bytes_at(now, next(5000), true),
                1 => {
                    t.get_recent_tx_bytes_at(now);
                }
                _ => {
                    let bytes = next(5000);
                    t.record_rx_bytes_at(now, bytes, next(2) == 0);
                    received.push((now, bytes));
                }
            }
            let fresh: u64 =
                received.iter().filter(|r| now - r.0 < 2000 * MS).map(|r| r.1).sum();
            let read = t.clone().get_recent_rx_bytes_at(now);
            assert!(read <= fresh);
            if now < 2000 * MS {
                assert_eq!(read, fresh);
            }
        }
        assert_eq!(t.get_recent_rx_bytes_at(now + 2000 * MS), 0);
    }
}
