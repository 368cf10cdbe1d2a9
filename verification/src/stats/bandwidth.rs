//! Bandwidth, estimated from queueing delay, throughput and loss.
use vstd::prelude::*;

use crate::clock::{clock_start, elapsed, nanos_since, span};
use crate::num::double::{fraction, lemma_whole_monotone, of_whole, signed, F64};
use crate::num::facts::lemma_zero_one;

pub mod formula;
pub mod laws;
pub mod windows;

verus! {

/// A passive bandwidth estimator.
#[derive(Debug)]
pub struct BandwidthEstimator {
    start: std::time::Instant,
    b_hat: F64,
    last_update: u128,
    last_minrtt_ms: F64,
    last_tx_bytes: u64,
    recent_throughput_bps: F64,
}

/// What an estimator knows.
pub struct Bandwidth {
    /// The estimate, in bytes per second.
    pub b_hat: F64,
    /// When the estimate was last updated, in nanoseconds.
    pub last_update: int,
    /// The smallest round trip at that time, in milliseconds.
    pub last_minrtt_ms: F64,
    /// The bytes sent until that time.
    pub last_tx_bytes: u64,
    /// The smoothed throughput, in bytes per second.
    pub throughput: F64,
}

/// A measurement of a connection.
pub struct Measurement {
    /// The bytes sent so far.
    pub tx_bytes: u64,
    /// The smoothed round trip, in milliseconds.
    pub srtt_ms: F64,
    /// The variation of the round trip, in milliseconds.
    pub rttvar_ms: F64,
    /// The smallest round trip, in milliseconds.
    pub minrtt_ms: F64,
    /// The share of packets lost.
    pub loss_rate: F64,
}

/// The estimate of a new connection, in bytes per second.
pub open spec fn initial_bps() -> F64 {
    of_whole(30_000_000)
}

/// The smallest estimate, in bytes per second.
pub open spec fn floor_bps() -> F64 {
    of_whole(5_000_000)
}

/// The largest estimate, in bytes per second.
pub open spec fn cap_bps() -> F64 {
    of_whole(1_000_000_000)
}

/// The normalised queueing delay up to which a window is clean.
pub open spec fn tau_low() -> F64 {
    fraction(1, 20)
}

/// The normalised queueing delay from which a window is congested.
pub open spec fn tau_high() -> F64 {
    fraction(1, 5)
}

/// The loss rate up to which a window is clean.
pub open spec fn p_low() -> F64 {
    fraction(1, 500)
}

/// The loss rate from which a window is congested.
pub open spec fn p_high() -> F64 {
    fraction(1, 100)
}

/// The share by which the estimate may grow in a second.
pub open spec fn alpha_per_s() -> F64 {
    fraction(1, 10)
}

/// The share that full congestion takes off the estimate.
pub open spec fn beta() -> F64 {
    fraction(3, 10)
}

/// The share of a new target in the estimate.
pub open spec fn gamma() -> F64 {
    fraction(1, 5)
}

/// How far above the throughput the estimate may aim.
pub open spec fn headroom() -> F64 {
    fraction(11, 10)
}

/// A number of nanoseconds, in seconds.
pub open spec fn seconds(nanos: int) -> F64 {
    of_whole(((nanos / 1_000_000_000) as u64) as nat).sum(
        of_whole((nanos % 1_000_000_000) as nat).quot(of_whole(1_000_000_000)),
    )
}

/// The queueing delay in smallest round trips, at most five.
pub open spec fn queueing(srtt_ms: F64, minrtt_ms: F64) -> F64 {
    let base = minrtt_ms.larger(of_whole(1));
    srtt_ms.diff(base).larger(signed(false, 0)).quot(base).smaller(of_whole(5))
}

/// A window with little queueing and little loss.
pub open spec fn clean(qnorm: F64, loss_rate: F64) -> bool {
    qnorm.at_most(tau_low()) && loss_rate.at_most(p_low())
}

/// A window without much queueing and without much loss.
pub open spec fn uncongested(qnorm: F64, loss_rate: F64) -> bool {
    qnorm.less(tau_high()) && loss_rate.less(p_high())
}

/// How strong the congestion is, from none to full.
pub open spec fn congestion(qnorm: F64, loss_rate: F64) -> F64 {
    let zero = signed(false, 0);
    let one = of_whole(1);
    let g_q = qnorm.diff(tau_high()).quot(one.diff(tau_high())).clamped(zero, one);
    let g_p = loss_rate.quot(p_high()).clamped(zero, one);
    g_q.larger(g_p)
}

/// The estimate `b` moved towards `target`.
pub open spec fn blended(b: F64, target: F64) -> F64 {
    of_whole(1).diff(gamma()).prod(b).sum(gamma().prod(target))
}

/// The estimate that `b` may grow to in `dt` seconds.
pub open spec fn growth_limit(b: F64, dt: F64) -> F64 {
    b.prod(of_whole(1).sum(alpha_per_s().prod(dt)))
}

/// The estimate `b` after a window of `dt` seconds.
pub open spec fn adjusted(b: F64, throughput: F64, dt: F64, qnorm: F64, loss_rate: F64) -> F64 {
    let zero = signed(false, 0);
    if clean(qnorm, loss_rate) {
        if zero.less(throughput) {
            blended(b, throughput.prod(headroom()).smaller(growth_limit(b, dt))).clamped(
                floor_bps(),
                cap_bps(),
            )
        } else {
            b
        }
    } else if uncongested(qnorm, loss_rate) {
        blended(b, b.larger(throughput)).clamped(floor_bps(), cap_bps())
    } else {
        b.larger(throughput).prod(
            of_whole(1).diff(beta().prod(congestion(qnorm, loss_rate))),
        ).clamped(floor_bps(), cap_bps())
    }
}

impl Bandwidth {
    /// A new estimator.
    pub open spec fn initial(now: int) -> Bandwidth {
        Bandwidth {
            b_hat: initial_bps(),
            last_update: now,
            last_minrtt_ms: signed(false, 0),
            last_tx_bytes: 0,
            throughput: signed(false, 0),
        }
    }

    /// The throughput since the last update, `dt` seconds ago.
    pub open spec fn instant_throughput(self, dt: F64, tx_bytes: u64) -> F64 {
        let bytes = if tx_bytes >= self.last_tx_bytes {
            (tx_bytes - self.last_tx_bytes) as nat
        } else {
            0
        };
        if signed(false, 0).less(dt) {
            of_whole(bytes).quot(dt)
        } else {
            signed(false, 0)
        }
    }

    /// The throughput, smoothed.
    pub open spec fn smoothed_throughput(self, dt: F64, tx_bytes: u64) -> F64 {
        let now = self.instant_throughput(dt, tx_bytes);
        if signed(false, 0).less(self.throughput) {
            fraction(3, 10).prod(now).sum(fraction(7, 10).prod(self.throughput))
        } else {
            now
        }
    }

    /// The smallest round trip has changed so much that the path must be another one.
    pub open spec fn path_changed(self, rttvar_ms: F64, minrtt_ms: F64) -> bool {
        signed(false, 0).less(self.last_minrtt_ms) && of_whole(3).prod(rttvar_ms).larger(
            of_whole(20),
        ).less(minrtt_ms.diff(self.last_minrtt_ms).magnitude_of())
    }

    /// The estimate to start from: on another path, halfway to that of a new connection.
    pub open spec fn starting_point(self, rttvar_ms: F64, minrtt_ms: F64) -> F64 {
        if self.path_changed(rttvar_ms, minrtt_ms) {
            initial_bps().sum(self.b_hat).quot(of_whole(2))
        } else {
            self.b_hat
        }
    }

    /// The estimator after a measurement at the time `now`. One that comes less than a tenth
    /// of a second after the last is ignored.
    pub open spec fn updated(self, now: int, m: Measurement) -> Bandwidth {
        let dt = seconds(span(self.last_update, now));
        let throughput = self.smoothed_throughput(dt, m.tx_bytes);
        if dt.less(fraction(1, 10)) {
            self
        } else {
            Bandwidth {
                b_hat: adjusted(
                    self.starting_point(m.rttvar_ms, m.minrtt_ms),
                    throughput,
                    dt,
                    queueing(m.srtt_ms, m.minrtt_ms),
                    m.loss_rate,
                ),
                last_update: now,
                last_minrtt_ms: m.minrtt_ms,
                last_tx_bytes: m.tx_bytes,
                throughput,
            }
        }
    }
}

impl View for BandwidthEstimator {
    type V = Bandwidth;

    closed spec fn view(&self) -> Bandwidth {
        Bandwidth {
            b_hat: self.b_hat,
            last_update: self.last_update as int,
            last_minrtt_ms: self.last_minrtt_ms,
            last_tx_bytes: self.last_tx_bytes,
            throughput: self.recent_throughput_bps,
        }
    }
}

fn to_seconds(nanos: u128) -> (r: F64)
    ensures
        r == seconds(nanos as int),
{
    #[verifier::truncate]
    let whole: u64 = (nanos / 1_000_000_000) as u64;
    let rest: u64 = (nanos % 1_000_000_000) as u64;
    F64::from_u64(whole).plus(&F64::from_u64(rest).over(&F64::from_u64(1_000_000_000)))
}

fn queueing_of(srtt_ms: F64, minrtt_ms: F64) -> (r: F64)
    ensures
        r == queueing(srtt_ms, minrtt_ms),
{
    let base = minrtt_ms.max(&F64::from_u64(1));
    let q = srtt_ms.minus(&base).max(&F64::zero());
    q.over(&base).min(&F64::from_u64(5))
}

fn congestion_of(qnorm: F64, loss_rate: F64) -> (r: F64)
    ensures
        r == congestion(qnorm, loss_rate),
{
    proof {
        lemma_zero_one();
    }
    let zero = F64::zero();
    let one = F64::from_u64(1);
    let tau_high = F64::ratio(1, 5);
    let g_q = qnorm.minus(&tau_high).over(&one.minus(&tau_high)).clamp(&zero, &one);
    let g_p = loss_rate.over(&F64::ratio(1, 100)).clamp(&zero, &one);
    g_q.max(&g_p)
}

fn blend(b: F64, target: F64) -> (r: F64)
    ensures
        r == blended(b, target),
{
    let gamma = F64::ratio(1, 5);
    F64::from_u64(1).minus(&gamma).times(&b).plus(&gamma.times(&target))
}

fn adjust(b: F64, throughput: F64, dt: F64, qnorm: F64, loss_rate: F64) -> (r: F64)
    ensures
        r == adjusted(b, throughput, dt, qnorm, loss_rate),
{
    proof {
        lemma_whole_monotone(5_000_000, 1_000_000_000);
    }
    let (b_floor, b_cap) = (F64::from_u64(5_000_000), F64::from_u64(1_000_000_000));
    if qnorm.le(&F64::ratio(1, 20)) && loss_rate.le(&F64::ratio(1, 500)) {
        if F64::zero().lt(&throughput) {
            let growth = F64::from_u64(1).plus(&F64::ratio(1, 10).times(&dt));
            let up_cap = b.times(&growth);
            let target = throughput.times(&F64::ratio(11, 10)).min(&up_cap);
            blend(b, target).clamp(&b_floor, &b_cap)
        } else {
            b
        }
    } else if qnorm.lt(&F64::ratio(1, 5)) && loss_rate.lt(&F64::ratio(1, 100)) {
        blend(b, b.max(&throughput)).clamp(&b_floor, &b_cap)
    } else {
        let g = congestion_of(qnorm, loss_rate);
        let left = F64::from_u64(1).minus(&F64::ratio(3, 10).times(&g));
        b.max(&throughput).times(&left).clamp(&b_floor, &b_cap)
    }
}

impl BandwidthEstimator {
    /// The clock that the estimator reads.
    pub closed spec fn clock(&self) -> std::time::Instant {
        self.start
    }

    /// An estimator on a clock that starts now.
    pub fn new() -> (r: BandwidthEstimator)
        ensures
            r@ == Bandwidth::initial(0),
    {
        BandwidthEstimator::on_clock(clock_start(), 0)
    }

    /// An estimator on a given clock.
    pub fn on_clock(start: std::time::Instant, now: u128) -> (r: BandwidthEstimator)
        ensures
            r@ == Bandwidth::initial(now as int),
            r.clock() == start,
    {
        BandwidthEstimator {
            start,
            b_hat: F64::from_u64(30_000_000),
            last_update: now,
            last_minrtt_ms: F64::zero(),
            last_tx_bytes: 0,
            recent_throughput_bps: F64::zero(),
        }
    }

    /// Takes in a measurement made at the time `now`.
    pub fn update_at(
        &mut self,
        now: u128,
        current_tx_bytes: u64,
        srtt_ms: F64,
        rttvar_ms: F64,
        minrtt_ms: F64,
        loss_rate: F64,
    )
        ensures
            final(self)@ == old(self)@.updated(
                now as int,
                (Measurement {
                    tx_bytes: current_tx_bytes,
                    srtt_ms,
                    rttvar_ms,
                    minrtt_ms,
                    loss_rate,
                }),
            ),
            final(self).clock() == old(self).clock(),
    {
        let dt = to_seconds(elapsed(self.last_update, now));
        if dt.lt(&F64::ratio(1, 10)) {
            return ;
        }
        let delta_bytes: u64 = current_tx_bytes.saturating_sub(self.last_tx_bytes);
        let instant_throughput = if F64::zero().lt(&dt) {
            F64::from_u64(delta_bytes).over(&dt)
        } else {
            F64::zero()
        };
        if F64::zero().lt(&self.recent_throughput_bps) {
            self.recent_throughput_bps = F64::ratio(3, 10).times(&instant_throughput).plus(
                &F64::ratio(7, 10).times(&self.recent_throughput_bps),
            );
        } else {
            self.recent_throughput_bps = instant_throughput;
        }
        let throughput = self.recent_throughput_bps;
        let qnorm = queueing_of(srtt_ms, minrtt_ms);
        if F64::zero().lt(&self.last_minrtt_ms) {
            let jump = minrtt_ms.minus(&self.last_minrtt_ms).abs();
            let threshold = F64::from_u64(3).times(&rttvar_ms).max(&F64::from_u64(20));
            if threshold.lt(&jump) {
                self.b_hat = F64::from_u64(30_000_000).plus(&self.b_hat).over(&F64::from_u64(2));
            }
        }
        self.last_minrtt_ms = minrtt_ms;
        self.b_hat = adjust(self.b_hat, throughput, dt, qnorm, loss_rate);
        self.last_update = now;
        self.last_tx_bytes = current_tx_bytes;
    }

    /// Takes in a measurement made now.
    pub fn update(
        &mut self,
        current_tx_bytes: u64,
        srtt_ms: F64,
        rttvar_ms: F64,
        minrtt_ms: F64,
        loss_rate: F64,
    )
        ensures
            exists|now: u128|
                final(self)@ == #[trigger] old(self)@.updated(
                    now as int,
                    (Measurement {
                        tx_bytes: current_tx_bytes,
                        srtt_ms,
                        rttvar_ms,
                        minrtt_ms,
                        loss_rate,
                    }),
                ),
            final(self).clock() == old(self).clock(),
    {
        let now = nanos_since(&self.start);
        self.update_at(now, current_tx_bytes, srtt_ms, rttvar_ms, minrtt_ms, loss_rate);
    }

    /// The estimate, in bytes per second.
    pub fn get_bw_bps(&self) -> (r: F64)
        ensures
            r == self@.b_hat,
    {
        self.b_hat
    }

    /// The smoothed throughput, in bytes per second.
    pub fn get_recent_throughput_bps(&self) -> (r: F64)
        ensures
            r == self@.throughput,
    {
        self.recent_throughput_bps
    }
}

impl Default for BandwidthEstimator {
    fn default() -> (r: BandwidthEstimator)
        ensures
            r@ == Bandwidth::initial(0),
    {
        BandwidthEstimator::new()
    }
}

impl Clone for BandwidthEstimator {
    fn clone(&self) -> (r: BandwidthEstimator)
        ensures
            r@ == self@,
            r.clock() == self.clock(),
    {
        BandwidthEstimator {
            start: self.start,
            b_hat: self.b_hat,
            last_update: self.last_update,
            last_minrtt_ms: self.last_minrtt_ms,
            last_tx_bytes: self.last_tx_bytes,
            recent_throughput_bps: self.recent_throughput_bps,
        }
    }
}

} // verus!
