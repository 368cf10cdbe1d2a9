//! What the counters of a connection hold after its packets.
use vstd::prelude::*;

use crate::clock::millis;
use crate::num::double::F64;
use crate::stats::bandwidth::Measurement;
use crate::stats::inflight::history::after;
use crate::stats::throughput::{after_events, after_packets, Counted, Event, Packet, Touch, Traffic};

verus! {

/// The number of packets that carried data.
pub open spec fn with_data(packets: Seq<Packet>) -> nat
    decreases packets.len(),
{
    if packets.len() == 0 {
        0
    } else {
        with_data(packets.drop_last()) + if packets.last().is_data {
            1nat
        } else {
            0
        }
    }
}

/// Packets that carried data are counted on their own, and the age of the last packet is the time
/// since it was counted.
pub proof fn law_packets_with_data_are_counted(now: int, packets: Seq<Packet>, ms: u64)
    requires
        packets.len() <= u64::MAX,
    ensures
        ({
            let c = after_packets(Counted::nothing(now), packets);
            &&& c.data_packets == with_data(packets)
            &&& with_data(packets) <= packets.len()
            &&& packets.len() > 0 && ms >= millis(packets.last().now) ==> c.age(ms) == ms - millis(
                packets.last().now,
            )
        }),
    decreases packets.len(),
{
    if packets.len() > 0 {
        law_packets_with_data_are_counted(now, packets.drop_last(), ms);
    }
}

/// The data that was sent, by time and length.
pub open spec fn data_sent(events: Seq<Event>) -> Seq<(int, nat)>
    decreases events.len(),
{
    if events.len() == 0 {
        seq![]
    } else {
        let before = data_sent(events.drop_last());
        match events.last() {
            Event::Sent(Touch::Packet(p)) => if p.is_data {
                before.push((p.now, (p.bytes as usize) as nat))
            } else {
                before
            },
            _ => before,
        }
    }
}

/// Of all that happens to a connection, exactly the data that it sends counts as in flight, in
/// 256 slots of ten milliseconds.
pub proof fn law_data_sent_is_in_flight(events: Seq<Event>)
    ensures
        after_events(Traffic::initial(), events).inflight == after(10, 256, 0, data_sent(events)),
    decreases events.len(),
{
    if events.len() > 0 {
        let front = events.drop_last();
        law_data_sent_is_in_flight(front);
        let s = data_sent(front);
        match events.last() {
            Event::Sent(Touch::Packet(p)) => {
                let x = (p.now, (p.bytes as usize) as nat);
                assert(s.push(x).drop_last() =~= s);
                assert(s.push(x).last() == x);
            },
            _ => {},
        }
    }
}

/// A measurement goes to the bandwidth estimator, with the data sent so far, and changes nothing
/// else.
pub proof fn law_measurements_see_the_data_sent(
    t: Traffic,
    now: int,
    srtt_ms: F64,
    rttvar_ms: F64,
    minrtt_ms: F64,
    loss_rate: F64,
    m: Measurement,
)
    requires
        m.tx_bytes == t.tx.data_bytes,
        m.srtt_ms == srtt_ms,
        m.rttvar_ms == rttvar_ms,
        m.minrtt_ms == minrtt_ms,
        m.loss_rate == loss_rate,
    ensures
        ({
            let next = t.measured(now, srtt_ms, rttvar_ms, minrtt_ms, loss_rate);
            &&& next.bandwidth == t.bandwidth.updated(now, m)
            &&& next.tx == t.tx
            &&& next.rx == t.rx
            &&& next.inflight == t.inflight
        }),
{
}

/// Forgetting what is in flight leaves nothing in flight, and every counter as it was.
pub proof fn law_nothing_is_in_flight_once_forgotten(t: Traffic, now: int)
    ensures
        ({
            let next = t.without_inflight(now);
            &&& next.inflight == after(10, 256, now, seq![])
            &&& next.tx == t.tx
            &&& next.rx == t.rx
            &&& next.bandwidth == t.bandwidth
        }),
{
}

} // verus!
