//! The traffic of a connection.
use vstd::prelude::*;

use crate::clock::{clock_start, elapsed, millis, nanos_since, span, to_millis};
use crate::num::double::F64;
use crate::num::single::F32;
use crate::stats::bandwidth::{Bandwidth, BandwidthEstimator, Measurement};
use crate::stats::inflight::{InFlight, TimeBucketInFlight};

pub mod laws;

verus! {

/// Counters of what a connection has sent and received.
#[derive(Debug)]
pub struct Throughput {
    start: std::time::Instant,
    tx_bytes: u64,
    rx_bytes: u64,
    tx_packets: u64,
    rx_packets: u64,
    data_tx_bytes: u64,
    data_rx_bytes: u64,
    data_tx_packets: u64,
    data_rx_packets: u64,
    last_tx: u64,
    last_rx: u64,
    inflight: TimeBucketInFlight,
    bw_estimator: BandwidthEstimator,
    recent_tx_bytes: u64,
    recent_tx_window_start: u128,
    recent_rx_bytes: u64,
    recent_rx_window_start: u128,
}

/// The bytes counted since the start of a window of two seconds.
pub struct Recent {
    pub bytes: u64,
    /// When the window began, in nanoseconds.
    pub since: int,
}

/// What was counted in one direction.
pub struct Counted {
    /// All bytes and packets.
    pub bytes: u64,
    pub packets: u64,
    /// Those that carried data.
    pub data_bytes: u64,
    pub data_packets: u64,
    /// When the last packet was counted, in milliseconds.
    pub last_ms: u64,
    pub recent: Recent,
}

/// The traffic of a connection.
pub struct Traffic {
    pub tx: Counted,
    pub rx: Counted,
    pub inflight: InFlight,
    pub bandwidth: Bandwidth,
}

impl Recent {
    /// The window at the time `now`: a new one once two seconds have passed.
    pub open spec fn rolled(self, now: int) -> Recent {
        if span(self.since, now) >= 2_000_000_000 {
            Recent { bytes: 0, since: now }
        } else {
            self
        }
    }
}

impl Counted {
    /// Nothing, at the time `now`.
    pub open spec fn nothing(now: int) -> Counted {
        Counted {
            bytes: 0,
            packets: 0,
            data_bytes: 0,
            data_packets: 0,
            last_ms: 0,
            recent: Recent { bytes: 0, since: now },
        }
    }

    /// Data and recent bytes are among all bytes.
    pub open spec fn consistent(self) -> bool {
        &&& self.data_bytes <= self.bytes
        &&& self.data_packets <= self.packets
        &&& self.recent.bytes <= self.bytes
    }

    /// One more packet fits in the counters.
    pub open spec fn has_room(self, bytes: u64) -> bool {
        self.bytes + bytes <= u64::MAX && self.packets < u64::MAX
    }

    /// After one more packet at the time `now`.
    pub open spec fn counted(self, now: int, bytes: u64, is_data: bool) -> Counted {
        let recent = self.recent.rolled(now);
        Counted {
            bytes: (self.bytes + bytes) as u64,
            packets: (self.packets + 1) as u64,
            data_bytes: if is_data {
                (self.data_bytes + bytes) as u64
            } else {
                self.data_bytes
            },
            data_packets: if is_data {
                (self.data_packets + 1) as u64
            } else {
                self.data_packets
            },
            last_ms: millis(now),
            recent: Recent { bytes: (recent.bytes + bytes) as u64, since: recent.since },
        }
    }

    /// The milliseconds from the last packet to the time `ms`.
    pub open spec fn age(self, ms: u64) -> u64 {
        (ms - self.last_ms) as u64
    }

    /// At the time `now`, with the window of recent bytes moved on.
    pub open spec fn rolled(self, now: int) -> Counted {
        Counted { recent: self.recent.rolled(now), ..self }
    }
}

impl Traffic {
    /// A new connection.
    pub open spec fn initial() -> Traffic {
        Traffic {
            tx: Counted::nothing(0),
            rx: Counted::nothing(0),
            inflight: InFlight::empty(10, 256, 0),
            bandwidth: Bandwidth::initial(0),
        }
    }

    /// After a packet sent at the time `now`. Data counts as in flight.
    pub open spec fn sent(self, now: int, bytes: u64, is_data: bool) -> Traffic {
        Traffic {
            tx: self.tx.counted(now, bytes, is_data),
            inflight: if is_data {
                self.inflight.advanced(now).sent((bytes as usize) as nat)
            } else {
                self.inflight
            },
            ..self
        }
    }

    /// After a packet received at the time `now`.
    pub open spec fn received(self, now: int, bytes: u64, is_data: bool) -> Traffic {
        Traffic { rx: self.rx.counted(now, bytes, is_data), ..self }
    }

    /// After a measurement at the time `now`.
    pub open spec fn measured(
        self,
        now: int,
        srtt_ms: F64,
        rttvar_ms: F64,
        minrtt_ms: F64,
        loss_rate: F64,
    ) -> Traffic {
        Traffic {
            bandwidth: self.bandwidth.updated(
                now,
                Measurement {
                    tx_bytes: self.tx.data_bytes,
                    srtt_ms,
                    rttvar_ms,
                    minrtt_ms,
                    loss_rate,
                },
            ),
            ..self
        }
    }

    /// With the bytes in flight forgotten at the time `now`.
    pub open spec fn without_inflight(self, now: int) -> Traffic {
        Traffic { inflight: InFlight::empty(10, 256, now), ..self }
    }
}

impl View for Throughput {
    type V = Traffic;

    closed spec fn view(&self) -> Traffic {
        Traffic {
            tx: Counted {
                bytes: self.tx_bytes,
                packets: self.tx_packets,
                data_bytes: self.data_tx_bytes,
                data_packets: self.data_tx_packets,
                last_ms: self.last_tx,
                recent: Recent {
                    bytes: self.recent_tx_bytes,
                    since: self.recent_tx_window_start as int,
                },
            },
            rx: Counted {
                bytes: self.rx_bytes,
                packets: self.rx_packets,
                data_bytes: self.data_rx_bytes,
                data_packets: self.data_rx_packets,
                last_ms: self.last_rx,
                recent: Recent {
                    bytes: self.recent_rx_bytes,
                    since: self.recent_rx_window_start as int,
                },
            },
            inflight: self.inflight@,
            bandwidth: self.bw_estimator@,
        }
    }
}

impl Default for Throughput {
    fn default() -> (r: Throughput)
        ensures
            r.well_formed(),
            r@ == Traffic::initial(),
    {
        let start = clock_start();
        Throughput {
            start,
            tx_bytes: 0,
            rx_bytes: 0,
            tx_packets: 0,
            rx_packets: 0,
            data_tx_bytes: 0,
            data_rx_bytes: 0,
            data_tx_packets: 0,
            data_rx_packets: 0,
            last_tx: 0,
            last_rx: 0,
            inflight: TimeBucketInFlight::on_clock(start, 0, 10, 256),
            bw_estimator: BandwidthEstimator::on_clock(start, 0),
            recent_tx_bytes: 0,
            recent_tx_window_start: 0,
            recent_rx_bytes: 0,
            recent_rx_window_start: 0,
        }
    }
}

impl Clone for Throughput {
    /// The counters and the bandwidth, with nothing in flight.
    fn clone(&self) -> (r: Throughput)
        ensures
            self.well_formed() ==> r.well_formed(),
            r.clock() == self.clock(),
            exists|now: u128| r@ == #[trigger] self@.without_inflight(now as int),
    {
        let now = nanos_since(&self.start);
        let r = Throughput {
            start: self.start,
            tx_bytes: self.tx_bytes,
            rx_bytes: self.rx_bytes,
            tx_packets: self.tx_packets,
            rx_packets: self.rx_packets,
            data_tx_bytes: self.data_tx_bytes,
            data_rx_bytes: self.data_rx_bytes,
            data_tx_packets: self.data_tx_packets,
            data_rx_packets: self.data_rx_packets,
            last_tx: self.last_tx,
            last_rx: self.last_rx,
            inflight: TimeBucketInFlight::on_clock(self.start, now, 10, 256),
            bw_estimator: self.bw_estimator.clone(),
            recent_tx_bytes: self.recent_tx_bytes,
            recent_tx_window_start: self.recent_tx_window_start,
            recent_rx_bytes: self.recent_rx_bytes,
            recent_rx_window_start: self.recent_rx_window_start,
        };
        assert(r@ == self@.without_inflight(now as int));
        r
    }
}

impl Throughput {
    /// The clock that the counters read.
    pub closed spec fn clock(&self) -> std::time::Instant {
        self.start
    }

    /// The counters are consistent, and all parts read the same clock.
    pub closed spec fn well_formed(&self) -> bool {
        &&& self.inflight.well_formed()
        &&& self.inflight.clock() == self.start
        &&& self.bw_estimator.clock() == self.start
        &&& self@.tx.consistent()
        &&& self@.rx.consistent()
    }

    /// What well-formed counters hold is consistent.
    pub proof fn lemma_well_formed(&self)
        requires
            self.well_formed(),
        ensures
            self@.tx.consistent(),
            self@.rx.consistent(),
            self@.inflight.recent.len() > 0,
            self@.inflight.slot_ms > 0,
    {
        self.inflight.lemma_well_formed();
    }

    /// The counters of a new connection, on a clock that starts now.
    pub fn new() -> (r: Throughput)
        ensures
            r.well_formed(),
            r@ == Traffic::initial(),
    {
        Throughput::default()
    }

    /// The bytes sent.
    pub fn tx_bytes(&self) -> (r: u64)
        ensures
            r == self@.tx.bytes,
    {
        self.tx_bytes
    }

    /// The bytes received.
    pub fn rx_bytes(&self) -> (r: u64)
        ensures
            r == self@.rx.bytes,
    {
        self.rx_bytes
    }

    /// The packets sent.
    pub fn tx_packets(&self) -> (r: u64)
        ensures
            r == self@.tx.packets,
    {
        self.tx_packets
    }

    /// The packets received.
    pub fn rx_packets(&self) -> (r: u64)
        ensures
            r == self@.rx.packets,
    {
        self.rx_packets
    }

    /// The bytes of data sent.
    pub fn data_tx_bytes(&self) -> (r: u64)
        ensures
            r == self@.tx.data_bytes,
    {
        self.data_tx_bytes
    }

    /// The bytes of data received.
    pub fn data_rx_bytes(&self) -> (r: u64)
        ensures
            r == self@.rx.data_bytes,
    {
        self.data_rx_bytes
    }

    /// The packets of data sent.
    pub fn data_tx_packets(&self) -> (r: u64)
        ensures
            r == self@.tx.data_packets,
    {
        self.data_tx_packets
    }

    /// The packets of data received.
    pub fn data_rx_packets(&self) -> (r: u64)
        ensures
            r == self@.rx.data_packets,
    {
        self.data_rx_packets
    }

    /// The milliseconds from the last packet sent to the time `now`.
    pub fn last_tx_age_ms_at(&self, now: u128) -> (r: u64)
        requires
            millis(now as int) >= self@.tx.last_ms,
        ensures
            r == self@.tx.age(millis(now as int)),
    {
        to_millis(now) - self.last_tx
    }

    /// The milliseconds since the last packet sent.
    pub fn last_tx_age_ms(&self) -> (r: u64)
        ensures
            exists|ms: u64| ms >= self@.tx.last_ms && r == #[trigger] self@.tx.age(ms),
    {
        let ms: u64 = to_millis(nanos_since(&self.start));
        let ms: u64 = if ms < self.last_tx {
            self.last_tx
        } else {
            ms
        };
        assert(ms - self.last_tx == self@.tx.age(ms));
        ms - self.last_tx
    }

    /// The milliseconds from the last packet received to the time `now`.
    pub fn last_rx_age_ms_at(&self, now: u128) -> (r: u64)
        requires
            millis(now as int) >= self@.rx.last_ms,
        ensures
            r == self@.rx.age(millis(now as int)),
    {
        to_millis(now) - self.last_rx
    }

    /// The milliseconds since the last packet received.
    pub fn last_rx_age_ms(&self) -> (r: u64)
        ensures
            exists|ms: u64| ms >= self@.rx.last_ms && r == #[trigger] self@.rx.age(ms),
    {
        let ms: u64 = to_millis(nanos_since(&self.start));
        let ms: u64 = if ms < self.last_rx {
            self.last_rx
        } else {
            ms
        };
        assert(ms - self.last_rx == self@.rx.age(ms));
        ms - self.last_rx
    }

    /// The bytes of data sent in the last `gamma` round trips before the time `now`.
    pub fn estimated_inflight_bytes_at(&mut self, now: u128, srtt_ms: u32, gamma: F32) -> (r: u64)
        requires
            old(self).well_formed(),
        ensures
            final(self).well_formed(),
            final(self).clock() == old(self).clock(),
            final(self)@ == (Traffic { inflight: old(self)@.inflight.advanced(now as int), ..old(self)@ }),
            r == final(self)@.inflight.estimate(final(self)@.inflight.horizon(srtt_ms, gamma)),
    {
        self.inflight.estimate_inflight_at(now, srtt_ms, gamma)
    }

    /// The bytes of data sent in the last `gamma` round trips.
    pub fn estimated_inflight_bytes(&mut self, srtt_ms: u32, gamma: F32) -> (r: u64)
        requires
            old(self).well_formed(),
        ensures
            final(self).well_formed(),
            final(self).clock() == old(self).clock(),
            exists|now: u128|
                final(self)@ == (Traffic {
                    inflight: #[trigger] old(self)@.inflight.advanced(now as int),
                    ..old(self)@
                }),
            r == final(self)@.inflight.estimate(final(self)@.inflight.horizon(srtt_ms, gamma)),
    {
        let now = nanos_since(&self.start);
        self.estimated_inflight_bytes_at(now, srtt_ms, gamma)
    }

    /// Updates the bandwidth estimate with a measurement made at the time `now`.
    pub fn update_bw_estimate_at(
        &mut self,
        now: u128,
        srtt_ms: F64,
        rttvar_ms: F64,
        minrtt_ms: F64,
        loss_rate: F64,
    )
        requires
            old(self).well_formed(),
        ensures
            final(self).well_formed(),
            final(self).clock() == old(self).clock(),
            final(self)@ == old(self)@.measured(
                now as int,
                srtt_ms,
                rttvar_ms,
                minrtt_ms,
                loss_rate,
            ),
    {
        let sent: u64 = self.data_tx_bytes;
        self.bw_estimator.update_at(now, sent, srtt_ms, rttvar_ms, minrtt_ms, loss_rate);
    }

    /// Updates the bandwidth estimate with a measurement made now.
    pub fn update_bw_estimate(
        &mut self,
        srtt_ms: F64,
        rttvar_ms: F64,
        minrtt_ms: F64,
        loss_rate: F64,
    )
        requires
            old(self).well_formed(),
        ensures
            final(self).well_formed(),
            final(self).clock() == old(self).clock(),
            exists|now: u128|
                final(self)@ == #[trigger] old(self)@.measured(
                    now as int,
                    srtt_ms,
                    rttvar_ms,
                    minrtt_ms,
                    loss_rate,
                ),
    {
        let now = nanos_since(&self.start);
        self.update_bw_estimate_at(now, srtt_ms, rttvar_ms, minrtt_ms, loss_rate);
    }

    /// The bandwidth estimate, in bytes per second.
    pub fn get_bw_est_bps(&self) -> (r: F64)
        ensures
            r == self@.bandwidth.b_hat,
    {
        self.bw_estimator.get_bw_bps()
    }

    /// The smoothed throughput, in bytes per second.
    pub fn get_recent_throughput_bps(&self) -> (r: F64)
        ensures
            r == self@.bandwidth.throughput,
    {
        self.bw_estimator.get_recent_throughput_bps()
    }

    /// The bytes sent in the window of two seconds that the time `now` falls in.
    pub fn get_recent_tx_bytes_at(&mut self, now: u128) -> (r: u64)
        requires
            old(self).well_formed(),
        ensures
            final(self).well_formed(),
            final(self).clock() == old(self).clock(),
            final(self)@ == (Traffic { tx: old(self)@.tx.rolled(now as int), ..old(self)@ }),
            r == final(self)@.tx.recent.bytes,
    {
        if elapsed(self.recent_tx_window_start, now) >= 2_000_000_000 {
            self.recent_tx_window_start = now;
            self.recent_tx_bytes = 0;
        }
        self.recent_tx_bytes
    }

    /// The bytes sent in the current window of two seconds.
    pub fn get_recent_tx_bytes(&mut self) -> (r: u64)
        requires
            old(self).well_formed(),
        ensures
            final(self).well_formed(),
            final(self).clock() == old(self).clock(),
            exists|now: u128|
                final(self)@ == (Traffic {
                    tx: #[trigger] old(self)@.tx.rolled(now as int),
                    ..old(self)@
                }),
            r == final(self)@.tx.recent.bytes,
    {
        let now = nanos_since(&self.start);
        self.get_recent_tx_bytes_at(now)
    }

    /// Counts a packet sent at the time `now`.
    pub fn record_tx_bytes_at(&mut self, now: u128, bytes: u64, is_data: bool)
        requires
            old(self).well_formed(),
            old(self)@.tx.has_room(bytes),
        ensures
            final(self).well_formed(),
            final(self).clock() == old(self).clock(),
            final(self)@ == old(self)@.sent(now as int, bytes, is_data),
    {
        self.tx_bytes = self.tx_bytes + bytes;
        self.tx_packets = self.tx_packets + 1;
        self.last_tx = to_millis(now);
        if is_data {
            self.data_tx_bytes = self.data_tx_bytes + bytes;
            self.data_tx_packets = self.data_tx_packets + 1;
            #[verifier::truncate]
            let size: usize = bytes as usize;
            self.inflight.on_send_at(now, size);
        }
        if elapsed(self.recent_tx_window_start, now) >= 2_000_000_000 {
            self.recent_tx_bytes = 0;
            self.recent_tx_window_start = now;
        }
        self.recent_tx_bytes = self.recent_tx_bytes + bytes;
    }

    /// Counts a packet sent now.
    pub fn record_tx_bytes(&mut self, bytes: u64, is_data: bool)
        requires
            old(self).well_formed(),
            old(self)@.tx.has_room(bytes),
        ensures
            final(self).well_formed(),
            final(self).clock() == old(self).clock(),
            exists|now: u128|
                final(self)@ == #[trigger] old(self)@.sent(now as int, bytes, is_data),
    {
        let now = nanos_since(&self.start);
        self.record_tx_bytes_at(now, bytes, is_data);
    }

    /// The bytes received in the window of two seconds that the time `now` falls in.
    pub fn get_recent_rx_bytes_at(&mut self, now: u128) -> (r: u64)
        requires
            old(self).well_formed(),
        ensures
            final(self).well_formed(),
            final(self).clock() == old(self).clock(),
            final(self)@ == (Traffic { rx: old(self)@.rx.rolled(now as int), ..old(self)@ }),
            r == final(self)@.rx.recent.bytes,
    {
        if elapsed(self.recent_rx_window_start, now) >= 2_000_000_000 {
            self.recent_rx_window_start = now;
            self.recent_rx_bytes = 0;
        }
        self.recent_rx_bytes
    }

    /// The bytes received in the current window of two seconds.
    pub fn get_recent_rx_bytes(&mut self) -> (r: u64)
        requires
            old(self).well_formed(),
        ensures
            final(self).well_formed(),
            final(self).clock() == old(self).clock(),
            exists|now: u128|
                final(self)@ == (Traffic {
                    rx: #[trigger] old(self)@.rx.rolled(now as int),
                    ..old(self)@
                }),
            r == final(self)@.rx.recent.bytes,
    {
        let now = nanos_since(&self.start);
        self.get_recent_rx_bytes_at(now)
    }

    /// Counts a packet received at the time `now`.
    pub fn record_rx_bytes_at(&mut self, now: u128, bytes: u64, is_data: bool)
        requires
            old(self).well_formed(),
            old(self)@.rx.has_room(bytes),
        ensures
            final(self).well_formed(),
            final(self).clock() == old(self).clock(),
            final(self)@ == old(self)@.received(now as int, bytes, is_data),
    {
        self.rx_bytes = self.rx_bytes + bytes;
        self.rx_packets = self.rx_packets + 1;
        self.last_rx = to_millis(now);
        if is_data {
            self.data_rx_bytes = self.data_rx_bytes + bytes;
            self.data_rx_packets = self.data_rx_packets + 1;
        }
        if elapsed(self.recent_rx_window_start, now) >= 2_000_000_000 {
            self.recent_rx_bytes = 0;
            self.recent_rx_window_start = now;
        }
        self.recent_rx_bytes = self.recent_rx_bytes + bytes;
    }

    /// Counts a packet received now.
    pub fn record_rx_bytes(&mut self, bytes: u64, is_data: bool)
        requires
            old(self).well_formed(),
            old(self)@.rx.has_room(bytes),
        ensures
            final(self).well_formed(),
            final(self).clock() == old(self).clock(),
            exists|now: u128|
                final(self)@ == #[trigger] old(self)@.received(now as int, bytes, is_data),
    {
        let now = nanos_since(&self.start);
        self.record_rx_bytes_at(now, bytes, is_data);
    }
}

/// A packet, by when it was counted, its length and whether it carried data.
pub struct Packet {
    pub now: int,
    pub bytes: u64,
    pub is_data: bool,
}

/// What is counted after some packets in one direction.
pub open spec fn after_packets(c: Counted, packets: Seq<Packet>) -> Counted
    decreases packets.len(),
{
    if packets.len() == 0 {
        c
    } else {
        let p = packets.last();
        after_packets(c, packets.drop_last()).counted(p.now, p.bytes, p.is_data)
    }
}

/// The bytes of some packets, of all or of those with data.
pub open spec fn bytes_of(packets: Seq<Packet>, data_only: bool) -> nat
    decreases packets.len(),
{
    if packets.len() == 0 {
        0
    } else {
        let p = packets.last();
        bytes_of(packets.drop_last(), data_only) + if p.is_data || !data_only {
            p.bytes as nat
        } else {
            0
        }
    }
}

/// The counters hold exactly what was counted, as long as it fits in them.
pub proof fn law_counters_hold_what_was_counted(now: int, packets: Seq<Packet>)
    requires
        bytes_of(packets, false) <= u64::MAX,
        packets.len() <= u64::MAX,
    ensures
        ({
            let c = after_packets(Counted::nothing(now), packets);
            &&& c.bytes == bytes_of(packets, false)
            &&& c.packets == packets.len()
            &&& c.data_bytes == bytes_of(packets, true)
            &&& c.data_bytes <= c.bytes
            &&& c.data_packets <= c.packets
            &&& c.recent.bytes <= c.bytes
            &&& packets.len() > 0 ==> c.last_ms == millis(packets.last().now)
        }),
    decreases packets.len(),
{
    if packets.len() > 0 {
        law_counters_hold_what_was_counted(now, packets.drop_last());
    }
}

/// A window of recent bytes counts what is sent in it for two seconds and then starts anew.
pub proof fn law_recent_bytes_last_two_seconds(
    c: Counted,
    now: int,
    bytes: u64,
    is_data: bool,
    later: int,
)
    requires
        c.recent.rolled(now).bytes + bytes <= u64::MAX,
    ensures
        ({
            let read = c.counted(now, bytes, is_data).rolled(later).recent;
            let since = c.recent.rolled(now).since;
            &&& span(c.recent.since, now) >= 2_000_000_000 ==> since == now
            &&& span(since, later) < 2_000_000_000 ==> read.bytes == c.recent.rolled(now).bytes
                + bytes
            &&& span(since, later) >= 2_000_000_000 ==> read.bytes == 0 && read.since == later
        }),
{
}

/// What touches the window of recent bytes of one direction.
pub enum Touch {
    /// A packet is counted.
    Packet(Packet),
    /// The recent bytes are read, at a time.
    Read(int),
}

impl Touch {
    /// When it happens.
    pub open spec fn now(self) -> int {
        match self {
            Touch::Packet(p) => p.now,
            Touch::Read(now) => now,
        }
    }

    /// The bytes that it adds.
    pub open spec fn bytes(self) -> nat {
        match self {
            Touch::Packet(p) => p.bytes as nat,
            Touch::Read(_) => 0,
        }
    }
}

/// What is counted in one direction after some packets and reads.
pub open spec fn after_touches(c: Counted, touches: Seq<Touch>) -> Counted
    decreases touches.len(),
{
    if touches.len() == 0 {
        c
    } else {
        let before = after_touches(c, touches.drop_last());
        match touches.last() {
            Touch::Packet(p) => before.counted(p.now, p.bytes, p.is_data),
            Touch::Read(now) => before.rolled(now),
        }
    }
}

/// The bytes counted later than the time `t`, with data or without.
pub open spec fn bytes_after(touches: Seq<Touch>, t: int) -> nat
    decreases touches.len(),
{
    if touches.len() == 0 {
        0
    } else {
        bytes_after(touches.drop_last(), t) + if touches.last().now() > t {
            touches.last().bytes()
        } else {
            0
        }
    }
}

/// Packets and reads in the order of their times, all of them from `start` to `now`.
pub open spec fn in_time(touches: Seq<Touch>, start: int, now: int) -> bool {
    &&& start <= now
    &&& forall|i: int| 0 <= i < touches.len() ==> start <= (#[trigger] touches[i]).now() <= now
    &&& forall|i: int, j: int|
        0 <= i < j < touches.len() ==> (#[trigger] touches[i]).now() <= (
        #[trigger] touches[j]).now()
}

/// Fewer bytes were counted after a later time, and all of them after the start.
proof fn lemma_bytes_after(touches: Seq<Touch>, start: int, now: int, s: int, t: int)
    requires
        in_time(touches, start, now),
        s <= t,
    ensures
        bytes_after(touches, t) <= bytes_after(touches, s) <= bytes_after(touches, start - 1),
    decreases touches.len(),
{
    if touches.len() > 0 {
        let front = touches.drop_last();
        assert forall|i: int| 0 <= i < front.len() implies start <= (#[trigger] front[i]).now()
            <= now by {
            assert(touches[i] == front[i]);
        }
        assert forall|i: int, j: int| 0 <= i < j < front.len() implies (#[trigger] front[i]).now()
            <= (#[trigger] front[j]).now() by {
            assert(touches[i] == front[i] && touches[j] == front[j]);
        }
        lemma_bytes_after(front, start, now, s, t);
        assert(start <= touches[touches.len() - 1].now());
    }
}

/// The window holds no more than what was counted since it began; all of it where no window has
/// run out.
proof fn lemma_window(start: int, touches: Seq<Touch>, now: int)
    requires
        in_time(touches, start, now),
        bytes_after(touches, start - 1) <= u64::MAX,
    ensures
        ({
            let recent = after_touches(Counted::nothing(start), touches).recent;
            &&& start <= recent.since <= now
            &&& recent.bytes <= bytes_after(touches, recent.since - 1)
            &&& now - start < 2_000_000_000 ==> recent.since == start && recent.bytes
                == bytes_after(touches, start - 1)
        }),
    decreases touches.len(),
{
    if touches.len() > 0 {
        let front = touches.drop_last();
        let last = touches.last();
        let t = last.now();
        assert(start <= touches[touches.len() - 1].now() <= now);
        assert forall|i: int| 0 <= i < front.len() implies start <= (#[trigger] front[i]).now()
            <= t by {
            assert(touches[i] == front[i]);
            assert(touches[i].now() <= touches[touches.len() - 1].now());
        }
        assert forall|i: int, j: int| 0 <= i < j < front.len() implies (#[trigger] front[i]).now()
            <= (#[trigger] front[j]).now() by {
            assert(touches[i] == front[i] && touches[j] == front[j]);
        }
        lemma_window(start, front, t);
        let recent = after_touches(Counted::nothing(start), front).recent;
        lemma_bytes_after(front, start, t, recent.since - 1, recent.since - 1);
    }
}

/// The recent bytes, read at the time `now`, are no more than those counted less than two
/// seconds before, with data or without. They are all that were ever counted if counting began
/// less than two seconds before, and none if none were counted in that time.
pub proof fn law_recent_bytes_are_of_two_seconds(start: int, touches: Seq<Touch>, now: int)
    requires
        in_time(touches, start, now),
        bytes_after(touches, start - 1) <= u64::MAX,
    ensures
        ({
            let read = after_touches(Counted::nothing(start), touches).rolled(now).recent.bytes;
            let fresh = bytes_after(touches, now - 2_000_000_000);
            &&& read <= fresh
            &&& now - start < 2_000_000_000 ==> read == fresh && read == bytes_after(
                touches,
                start - 1,
            )
            &&& fresh == 0 ==> read == 0
        }),
{
    lemma_window(start, touches, now);
    let recent = after_touches(Counted::nothing(start), touches).recent;
    lemma_bytes_after(touches, start, now, now - 2_000_000_000, now - 2_000_000_000);
    if now - recent.since < 2_000_000_000 {
        lemma_bytes_after(touches, start, now, now - 2_000_000_000, recent.since - 1);
    }
    if now - start < 2_000_000_000 {
        lemma_bytes_after(touches, start, now, now - 2_000_000_000, start - 1);
    }
}

/// Packets without reads between them.
pub open spec fn counting(packets: Seq<Packet>) -> Seq<Touch> {
    packets.map_values(|p: Packet| Touch::Packet(p))
}

/// Packets that are counted without reads between them.
proof fn lemma_counting(c: Counted, packets: Seq<Packet>, start: int)
    requires
        forall|i: int| 0 <= i < packets.len() ==> start <= (#[trigger] packets[i]).now,
    ensures
        after_touches(c, counting(packets)) == after_packets(c, packets),
        bytes_after(counting(packets), start - 1) == bytes_of(packets, false),
    decreases packets.len(),
{
    if packets.len() > 0 {
        let front = packets.drop_last();
        assert forall|i: int| 0 <= i < front.len() implies start <= (#[trigger] front[i]).now by {
            assert(packets[i] == front[i]);
        }
        lemma_counting(c, front, start);
        assert(counting(packets).drop_last() =~= counting(front));
        assert(start <= packets[packets.len() - 1].now);
    }
}

/// The recent bytes of packets that are counted from `start` on and read at the time `now` for
/// the first time.
pub proof fn law_recent_bytes_of_packets(start: int, packets: Seq<Packet>, now: int)
    requires
        in_time(counting(packets), start, now),
        bytes_of(packets, false) <= u64::MAX,
    ensures
        ({
            let read = after_packets(Counted::nothing(start), packets).rolled(now).recent.bytes;
            let fresh = bytes_after(counting(packets), now - 2_000_000_000);
            &&& read <= fresh
            &&& now - start < 2_000_000_000 ==> read == bytes_of(packets, false)
            &&& fresh == 0 ==> read == 0
        }),
{
    assert forall|i: int| 0 <= i < packets.len() implies start <= (#[trigger] packets[i]).now by {
        assert(counting(packets)[i].now() == packets[i].now);
    }
    lemma_counting(Counted::nothing(start), packets, start);
    law_recent_bytes_are_of_two_seconds(start, counting(packets), now);
}

/// What happens to the counters of a connection.
pub enum Event {
    Sent(Touch),
    Received(Touch),
}

/// The traffic after some packets and reads in both directions.
pub open spec fn after_events(t: Traffic, events: Seq<Event>) -> Traffic
    decreases events.len(),
{
    if events.len() == 0 {
        t
    } else {
        let before = after_events(t, events.drop_last());
        match events.last() {
            Event::Sent(Touch::Packet(p)) => before.sent(p.now, p.bytes, p.is_data),
            Event::Sent(Touch::Read(now)) => Traffic { tx: before.tx.rolled(now), ..before },
            Event::Received(Touch::Packet(p)) => before.received(p.now, p.bytes, p.is_data),
            Event::Received(Touch::Read(now)) => Traffic { rx: before.rx.rolled(now), ..before },
        }
    }
}

/// What happens in one direction.
pub open spec fn touches_of(events: Seq<Event>, received: bool) -> Seq<Touch>
    decreases events.len(),
{
    if events.len() == 0 {
        seq![]
    } else {
        let before = touches_of(events.drop_last(), received);
        match events.last() {
            Event::Sent(t) => if received {
                before
            } else {
                before.push(t)
            },
            Event::Received(t) => if received {
                before.push(t)
            } else {
                before
            },
        }
    }
}

/// The directions do not mix: what is sent never changes what is counted as received, nor the
/// other way round.
pub proof fn law_directions_are_counted_apart(t: Traffic, events: Seq<Event>)
    ensures
        after_events(t, events).tx == after_touches(t.tx, touches_of(events, false)),
        after_events(t, events).rx == after_touches(t.rx, touches_of(events, true)),
        after_events(t, events).bandwidth == t.bandwidth,
    decreases events.len(),
{
    if events.len() > 0 {
        law_directions_are_counted_apart(t, events.drop_last());
        let (s, r) = (
            touches_of(events.drop_last(), false),
            touches_of(events.drop_last(), true),
        );
        match events.last() {
            Event::Sent(x) => {
                assert(s.push(x).drop_last() =~= s);
            },
            Event::Received(x) => {
                assert(r.push(x).drop_last() =~= r);
            },
        }
    }
}

} // verus!
