//! Bytes in flight, estimated from what was sent in the last round trip.
use vstd::arithmetic::div_mod::{
    lemma_div_is_ordered, lemma_fundamental_div_mod, lemma_fundamental_div_mod_converse,
};
use vstd::prelude::*;

use crate::clock::{clock_start, elapsed, millis, nanos_since, span, to_millis};
use crate::num::single::{of_whole_32, F32};

pub mod history;

verus! {

/// The bytes sent in each of the last slots of time, kept in a ring.
#[derive(Debug)]
pub struct TimeBucketInFlight {
    start: std::time::Instant,
    buckets: Vec<u64>,
    /// The bucket of the current slot.
    head: usize,
    slot_ms: u32,
    /// When the current slot began.
    last_tick: u128,
}

/// What the buckets hold.
pub struct InFlight {
    /// The bytes sent in each slot, the current slot first.
    pub recent: Seq<u64>,
    pub slot_ms: u32,
    /// When the current slot began, in nanoseconds.
    pub last_tick: int,
}

/// The place of the bucket that is `age` slots behind `head` in a ring of `n`.
pub open spec fn ring_index(head: int, n: int, age: int) -> int {
    if age <= head {
        head - age
    } else {
        head + n - age
    }
}

impl InFlight {
    /// Empty buckets for `num_slots` slots, the first of which begins at the time `now`.
    pub open spec fn empty(slot_ms: u32, num_slots: nat, now: int) -> InFlight {
        InFlight { recent: Seq::new(num_slots, |i: int| 0u64), slot_ms, last_tick: now }
    }

    /// The buckets at the time `now`: each slot that has ended since moves them one place
    /// towards the past and opens an empty one.
    pub open spec fn advanced(self, now: int) -> InFlight {
        let slots = (millis(span(self.last_tick, now)) / self.slot_ms as u64) as usize;
        InFlight {
            recent: Seq::new(
                self.recent.len(),
                |i: int|
                    if i < slots {
                        0u64
                    } else {
                        self.recent[i - slots]
                    },
            ),
            slot_ms: self.slot_ms,
            last_tick: self.last_tick + slots * self.slot_ms * 1_000_000,
        }
    }

    /// The buckets after `size` bytes more in the current slot.
    pub open spec fn sent(self, size: nat) -> InFlight {
        InFlight {
            recent: self.recent.update(
                0,
                if self.recent[0] + size > u64::MAX {
                    u64::MAX
                } else {
                    (self.recent[0] + size) as u64
                },
            ),
            ..self
        }
    }

    /// The number of slots in `gamma` round trips, at least one and at most all.
    pub open spec fn horizon(self, srtt_ms: u32, gamma: F32) -> nat {
        let srtt = if srtt_ms >= self.slot_ms {
            srtt_ms
        } else {
            self.slot_ms
        };
        let ms = gamma.larger(of_whole_32(1)).prod(of_whole_32(srtt as nat)).whole_u32();
        let slots = (ms / self.slot_ms) as nat;
        if slots < 1 {
            1
        } else if slots > self.recent.len() {
            self.recent.len()
        } else {
            slots
        }
    }

    /// The bytes sent in the current slot and the ones before it, `slots` in all.
    pub open spec fn estimate(self, slots: nat) -> u64 {
        capped(sum_bytes(self.recent.take(slots as int)))
    }
}

/// The sum of some byte counts.
pub open spec fn sum_bytes(s: Seq<u64>) -> nat
    decreases s.len(),
{
    if s.len() == 0 {
        0
    } else {
        sum_bytes(s.drop_last()) + s.last() as nat
    }
}

/// A number, kept to 64 bits.
pub open spec fn capped(n: nat) -> u64 {
    if n > u64::MAX {
        u64::MAX
    } else {
        n as u64
    }
}

impl View for TimeBucketInFlight {
    type V = InFlight;

    closed spec fn view(&self) -> InFlight {
        InFlight {
            recent: Seq::new(
                self.buckets@.len(),
                |i: int|
                    self.buckets@[ring_index(self.head as int, self.buckets@.len() as int, i)],
            ),
            slot_ms: self.slot_ms,
            last_tick: self.last_tick as int,
        }
    }
}

impl TimeBucketInFlight {
    /// The clock that the buckets read.
    pub closed spec fn clock(&self) -> std::time::Instant {
        self.start
    }

    /// There are buckets, the current one is one of them, and slots last some time.
    pub closed spec fn well_formed(&self) -> bool {
        &&& self.buckets.len() > 0
        &&& self.head < self.buckets.len()
        &&& self.slot_ms > 0
    }

    /// Well-formed buckets have a positive number of slots of positive length.
    pub proof fn lemma_well_formed(&self)
        requires
            self.well_formed(),
        ensures
            self@.recent.len() > 0,
            self@.slot_ms > 0,
            self@.last_tick >= 0,
    {
    }

    /// Empty buckets for `num_slots` slots of `slot_ms` milliseconds, on a clock that starts
    /// now.
    pub fn new(slot_ms: u32, num_slots: usize) -> (r: TimeBucketInFlight)
        requires
            slot_ms > 0,
            num_slots > 0,
        ensures
            r.well_formed(),
            r@ == InFlight::empty(slot_ms, num_slots as nat, 0),
    {
        TimeBucketInFlight::on_clock(clock_start(), 0, slot_ms, num_slots)
    }

    /// Empty buckets on a given clock.
    pub fn on_clock(start: std::time::Instant, now: u128, slot_ms: u32, num_slots: usize) -> (r:
        TimeBucketInFlight)
        requires
            slot_ms > 0,
            num_slots > 0,
        ensures
            r.well_formed(),
            r@ == InFlight::empty(slot_ms, num_slots as nat, now as int),
            r.clock() == start,
    {
        let mut buckets: Vec<u64> = Vec::new();
        let mut i: usize = 0;
        while i < num_slots
            invariant
                i <= num_slots,
                buckets.len() == i,
                forall|j: int| 0 <= j < i ==> #[trigger] buckets@[j] == 0,
            decreases num_slots - i,
        {
            buckets.push(0);
            i = i + 1;
        }
        let r = TimeBucketInFlight { start, buckets, head: 0, slot_ms, last_tick: now };
        assert(r@.recent =~= Seq::new(num_slots as nat, |i: int| 0u64));
        r
    }

    /// Moves the buckets on to the time `now`.
    fn advance_to(&mut self, now: u128)
        requires
            old(self).well_formed(),
        ensures
            final(self).well_formed(),
            final(self).clock() == old(self).clock(),
            final(self)@ == old(self)@.advanced(now as int),
    {
        let elapsed_ms = to_millis(elapsed(self.last_tick, now));
        #[verifier::truncate]
        let slots: usize = (elapsed_ms / self.slot_ms as u64) as usize;
        let n: usize = self.buckets.len();
        let steps: usize = if slots < n {
            slots
        } else {
            n
        };
        let ghost before = self@.recent;
        let mut i: usize = 0;
        while i < steps
            invariant
                i <= steps <= n,
                n == self.buckets.len(),
                self.well_formed(),
                self.slot_ms == old(self).slot_ms,
                self.last_tick == old(self).last_tick,
                self.start == old(self).start,
                before.len() == n,
                forall|k: int|
                    0 <= k < n ==> #[trigger] self@.recent[k] == if k < i {
                        0u64
                    } else {
                        before[k - i]
                    },
            decreases steps - i,
        {
            let ghost mid = self@.recent;
            let next: usize = if self.head + 1 == n {
                0
            } else {
                self.head + 1
            };
            self.head = next;
            self.buckets.set(next, 0);
            proof {
                assert forall|k: int| 0 <= k < n implies #[trigger] self@.recent[k] == if k < i + 1 {
                    0u64
                } else {
                    before[k - (i + 1)]
                } by {
                    if k > 0 {
                        assert(self@.recent[k] == mid[k - 1]);
                    }
                }
            }
            i = i + 1;
        }
        let ghost moved = self@.recent;
        proof {
            lemma_tick_bound(span(self.last_tick as int, now as int), elapsed_ms, self.slot_ms, slots);
            assert(moved =~= old(self)@.advanced(now as int).recent);
        }
        self.last_tick = self.last_tick + slots as u128 * self.slot_ms as u128 * 1_000_000;
        assert(self@.recent =~= moved);
    }

    /// Moves the buckets on to the present.
    pub fn advance_to_now(&mut self)
        requires
            old(self).well_formed(),
        ensures
            final(self).well_formed(),
            final(self).clock() == old(self).clock(),
            exists|now: u128| #[trigger] final(self)@ == old(self)@.advanced(now as int),
    {
        let now = nanos_since(&self.start);
        self.advance_to(now);
    }

    /// Counts `size` bytes sent at the time `now`.
    pub fn on_send_at(&mut self, now: u128, size: usize)
        requires
            old(self).well_formed(),
        ensures
            final(self).well_formed(),
            final(self).clock() == old(self).clock(),
            final(self)@ == old(self)@.advanced(now as int).sent(size as nat),
    {
        self.advance_to(now);
        let ghost mid = self@;
        let head: usize = self.head;
        let bytes: u64 = self.buckets[head].saturating_add(size as u64);
        self.buckets.set(head, bytes);
        assert(self@.recent =~= mid.sent(size as nat).recent);
    }

    /// Counts `size` bytes sent now.
    pub fn on_send(&mut self, size: usize)
        requires
            old(self).well_formed(),
        ensures
            final(self).well_formed(),
            final(self).clock() == old(self).clock(),
            exists|now: u128|
                final(self)@ == (#[trigger] old(self)@.advanced(now as int)).sent(size as nat),
    {
        let now = nanos_since(&self.start);
        self.on_send_at(now, size);
    }

    /// The bytes sent in the last `gamma` round trips before the time `now`.
    pub fn estimate_inflight_at(&mut self, now: u128, srtt_ms: u32, gamma: F32) -> (r: u64)
        requires
            old(self).well_formed(),
        ensures
            final(self).well_formed(),
            final(self).clock() == old(self).clock(),
            final(self)@ == old(self)@.advanced(now as int),
            r == final(self)@.estimate(final(self)@.horizon(srtt_ms, gamma)),
    {
        self.advance_to(now);
        let srtt: u32 = if srtt_ms >= self.slot_ms {
            srtt_ms
        } else {
            self.slot_ms
        };
        let horizon_ms: u32 = gamma.max(&F32::from_u32(1)).times(&F32::from_u32(srtt)).to_u32();
        let n: usize = self.buckets.len();
        let slots: usize = (horizon_ms / self.slot_ms) as usize;
        let slots: usize = if slots < 1 {
            1
        } else if slots > n {
            n
        } else {
            slots
        };
        let mut sum: u64 = 0;
        let mut at: usize = self.head;
        let mut i: usize = 0;
        assert(self@.recent.take(0) =~= seq![]);
        while i < slots
            invariant
                i <= slots <= n,
                n == self.buckets.len(),
                self.well_formed(),
                i < n ==> at == ring_index(self.head as int, n as int, i as int),
                at < n,
                sum == capped(sum_bytes(self@.recent.take(i as int))),
            decreases slots - i,
        {
            proof {
                assert(self@.recent.take(i + 1).drop_last() =~= self@.recent.take(i as int));
                assert(self@.recent[i as int] == self.buckets@[at as int]);
            }
            sum = sum.saturating_add(self.buckets[at]);
            at = if at == 0 {
                n - 1
            } else {
                at - 1
            };
            i = i + 1;
        }
        sum
    }

    /// The bytes sent in the last `gamma` round trips.
    pub fn estimate_inflight(&mut self, srtt_ms: u32, gamma: F32) -> (r: u64)
        requires
            old(self).well_formed(),
        ensures
            final(self).well_formed(),
            final(self).clock() == old(self).clock(),
            exists|now: u128| #[trigger] final(self)@ == old(self)@.advanced(now as int),
            r == final(self)@.estimate(final(self)@.horizon(srtt_ms, gamma)),
    {
        let now = nanos_since(&self.start);
        self.estimate_inflight_at(now, srtt_ms, gamma)
    }
}

/// The slots that have ended do not last longer than the time that has passed.
proof fn lemma_tick_bound(nanos: int, elapsed_ms: u64, slot_ms: u32, slots: usize)
    requires
        slot_ms > 0,
        nanos >= 0,
        elapsed_ms == millis(nanos),
        slots == (elapsed_ms / slot_ms as u64) as usize,
    ensures
        0 <= slots * slot_ms * 1_000_000 <= nanos,
        0 <= slots * slot_ms <= u64::MAX,
{
    assert(elapsed_ms <= nanos / 1_000_000);
    assert(slots <= elapsed_ms / slot_ms as u64);
    assert(0 <= slots * slot_ms <= elapsed_ms) by (nonlinear_arith)
        requires
            slots <= elapsed_ms as int / slot_ms as int,
            slot_ms > 0,
            slots >= 0,
    ;
}

proof fn lemma_sum_bytes_update(s: Seq<u64>, v: u64)
    requires
        s.len() > 0,
    ensures
        sum_bytes(s.update(0, v)) == sum_bytes(s) + v - s[0],
    decreases s.len(),
{
    if s.len() == 1 {
        assert(s.update(0, v).drop_last() =~= s.drop_last());
    } else {
        lemma_sum_bytes_update(s.drop_last(), v);
        assert(s.update(0, v).drop_last() =~= s.drop_last().update(0, v));
    }
}

proof fn lemma_first_in_sum(s: Seq<u64>)
    requires
        s.len() > 0,
    ensures
        sum_bytes(s) >= s[0],
    decreases s.len(),
{
    if s.len() > 1 {
        lemma_first_in_sum(s.drop_last());
    }
}

/// What is sent counts as in flight at once, over any number of slots.
pub proof fn law_sent_bytes_are_in_flight(x: InFlight, size: nat, slots: nat)
    requires
        1 <= slots <= x.recent.len(),
    ensures
        x.sent(size).estimate(slots) == capped(sum_bytes(x.recent.take(slots as int)) + size),
{
    let k = slots as int;
    let (a, b) = (x.recent.take(k), x.sent(size).recent.take(k));
    assert(b =~= a.update(0, x.sent(size).recent[0]));
    lemma_sum_bytes_update(a, x.sent(size).recent[0]);
    lemma_first_in_sum(a);
}

/// Moving on in two steps leads to the same buckets as moving on at once.
pub proof fn law_time_passes_in_steps(x: InFlight, now: int, later: int)
    requires
        x.slot_ms > 0,
        x.last_tick <= now <= later,
        (later - x.last_tick) / 1_000_000 <= u64::MAX,
        (later - x.last_tick) / 1_000_000 / x.slot_ms as int <= usize::MAX,
    ensures
        x.advanced(now).advanced(later).recent =~= x.advanced(later).recent,
        x.advanced(now).advanced(later) == x.advanced(later),
{
    let s = x.slot_ms as int;
    let (a, b) = ((now - x.last_tick) / 1_000_000, (later - x.last_tick) / 1_000_000);
    assert(0 <= a <= b);
    lemma_div_is_ordered(a, b, s);
    lemma_fundamental_div_mod(a, s);
    lemma_fundamental_div_mod(b, s);
    let (p, q) = (a / s, b / s);
    assert(p >= 0) by (nonlinear_arith)
        requires
            a == s * p + a % s,
            0 <= a % s < s,
            a >= 0,
    ;
    let y = x.advanced(now);
    assert(y.last_tick == x.last_tick + p * s * 1_000_000);
    let step = p * s;
    assert(s * p == step) by (nonlinear_arith)
        requires
            step == p * s,
    ;
    assert((later - y.last_tick) / 1_000_000 == b - step);
    assert((b - step) / s == q - p) by {
        assert(b - step == s * (q - p) + b % s) by (nonlinear_arith)
            requires
                b == s * q + b % s,
                step == p * s,
        ;
        lemma_fundamental_div_mod_converse(b - step, s, q - p, b % s);
    }
    assert(b - step >= 0);
    assert(span(y.last_tick, later) == later - y.last_tick);
    assert(y.advanced(later).recent =~= x.advanced(later).recent);
    assert((q - p) * s * 1_000_000 + p * s * 1_000_000 == q * s * 1_000_000) by (nonlinear_arith);
}

/// What was sent longer ago than the buckets reach back is no longer in flight.
pub proof fn law_old_bytes_expire(x: InFlight, now: int, slots: nat)
    requires
        x.slot_ms > 0,
        slots <= x.recent.len(),
        span(x.last_tick, now) / 1_000_000 <= u64::MAX,
        span(x.last_tick, now) / 1_000_000 / x.slot_ms as int <= usize::MAX,
        span(x.last_tick, now) / 1_000_000 / x.slot_ms as int >= x.recent.len(),
    ensures
        x.advanced(now).estimate(slots) == 0,
{
    let z = x.advanced(now).recent.take(slots as int);
    assert(z =~= Seq::new(slots, |i: int| 0u64));
    lemma_sum_of_zeros(slots);
}

proof fn lemma_sum_of_zeros(n: nat)
    ensures
        sum_bytes(Seq::new(n, |i: int| 0u64)) == 0,
    decreases n,
{
    let s = Seq::new(n, |i: int| 0u64);
    if n > 0 {
        lemma_sum_of_zeros((n - 1) as nat);
        assert(s.drop_last() =~= Seq::new((n - 1) as nat, |i: int| 0u64));
    }
}

} // verus!
