//! Round-trip times over a window of measurements.
use std::ops::Div;

use vstd::arithmetic::div_mod::{
    lemma_add_mod_noop, lemma_fundamental_div_mod, lemma_mod_add_multiples_vanish, lemma_small_mod,
};
use vstd::prelude::*;
use vstd::std_specs::ops::DivSpec;

use crate::clock::{clock_start, nanos_since, to_millis};
use crate::num::double::{of_whole, F64};

pub mod laws;

verus! {

/// The last measured latencies, in microseconds, with their running sum.
#[derive(Debug)]
pub struct WindowLatency {
    start: std::time::Instant,
    window: Vec<u32>,
    stamps: Vec<u64>,
    index: u32,
    size: u32,
    sum: u32,
    count: u32,
}

/// What a window of latencies holds.
pub struct Latencies {
    /// The latencies, in microseconds.
    pub window: Seq<u32>,
    /// When each was measured, in milliseconds.
    pub stamps: Seq<u64>,
    /// How many measurements there were, counted modulo 2^32.
    pub index: u32,
    /// How many of the latencies are measurements.
    pub count: u32,
    /// The sum of the latencies, modulo 2^32.
    pub sum: u32,
}

/// The sum of some latencies.
pub open spec fn sum_us(s: Seq<u32>) -> nat
    decreases s.len(),
{
    if s.len() == 0 {
        0
    } else {
        sum_us(s.drop_last()) + s.last() as nat
    }
}

/// The distance of two numbers.
pub open spec fn distance(a: int, b: int) -> nat {
    if a >= b {
        (a - b) as nat
    } else {
        (b - a) as nat
    }
}

/// The sum of the squared distances from `mean`.
pub open spec fn squares(s: Seq<u32>, mean: u32) -> nat
    decreases s.len(),
{
    if s.len() == 0 {
        0
    } else {
        squares(s.drop_last(), mean) + distance(s.last() as int, mean as int) * distance(
            s.last() as int,
            mean as int,
        )
    }
}

impl Latencies {
    /// A window without measurements.
    pub open spec fn empty(size: nat) -> Latencies {
        Latencies {
            window: Seq::new(size, |i: int| 0u32),
            stamps: Seq::new(size, |i: int| 0u64),
            index: 0,
            count: 0,
            sum: 0,
        }
    }

    /// The window after one more measurement, which takes the place of the oldest.
    pub open spec fn recorded(self, latency_us: u32, ms: u64) -> Latencies {
        let size = self.window.len() as int;
        let at = self.index as int % size;
        Latencies {
            window: self.window.update(at, latency_us),
            stamps: self.stamps.update(at, ms),
            index: if self.index == u32::MAX {
                0
            } else {
                (self.index + 1) as u32
            },
            count: if self.count < size {
                (self.count + 1) as u32
            } else {
                self.count
            },
            sum: ((self.sum + latency_us - self.window[at]) % 0x1_0000_0000) as u32,
        }
    }

    /// The running sum is that of the window, and places without a measurement hold zero.
    pub open spec fn consistent(self) -> bool {
        &&& self.stamps.len() == self.window.len()
        &&& self.window.len() <= u32::MAX
        &&& self.count <= self.window.len()
        &&& self.sum == sum_us(self.window) % 0x1_0000_0000
        &&& self.count < self.window.len() ==> self.index == self.count
        &&& forall|i: int| self.count <= i < self.window.len() ==> #[trigger] self.window[i] == 0
        &&& self.window.len() == 0 ==> self.index == 0
    }

    /// The mean latency, rounded down; zero without measurements.
    pub open spec fn mean(self) -> u32 {
        if self.count == 0 {
            0
        } else {
            (self.sum / self.count) as u32
        }
    }

    /// The sum of the squared distances of the measurements from their mean.
    pub open spec fn spread(self) -> nat {
        squares(self.window.take(self.count as int), self.mean())
    }

    /// The standard deviation, rounded down; zero without measurements.
    pub open spec fn deviation(self) -> u32 {
        if self.count == 0 {
            0
        } else {
            of_whole(self.spread() / self.count as nat).square_root().whole_u32()
        }
    }

    /// A latency that counts for the minimum.
    pub open spec fn proper(us: u32) -> bool {
        0 < us < u32::MAX
    }

    /// The age of the last measurement at `ms` milliseconds after the start.
    pub open spec fn age(self, ms: u64) -> u64 {
        (ms - self.last_stamp()) as u64
    }

    /// When the last measurement was made.
    pub open spec fn last_stamp(self) -> u64 {
        self.stamps[(self.index - 1) % self.window.len() as int]
    }
}

/// The conversion of a type to itself, `From<T> for T` of the standard library: it hands back
/// its argument.
pub assume_specification<Same>[ <Same as std::convert::From<Same>>::from ](t: Same) -> (r: Same)
    ensures
        r == t,
;

impl View for WindowLatency {
    type V = Latencies;

    closed spec fn view(&self) -> Latencies {
        Latencies {
            window: self.window@,
            stamps: self.stamps@,
            index: self.index,
            count: self.count,
            sum: self.sum,
        }
    }
}

proof fn lemma_sum_update(s: Seq<u32>, at: int, v: u32)
    requires
        0 <= at < s.len(),
    ensures
        sum_us(s.update(at, v)) == sum_us(s) + v - s[at],
    decreases s.len(),
{
    if at == s.len() - 1 {
        assert(s.update(at, v).drop_last() =~= s.drop_last());
    } else {
        lemma_sum_update(s.drop_last(), at, v);
        assert(s.update(at, v).drop_last() =~= s.drop_last().update(at, v));
    }
}

proof fn lemma_sum_zero(n: nat)
    ensures
        sum_us(Seq::new(n, |i: int| 0u32)) == 0,
    decreases n,
{
    let s = Seq::new(n, |i: int| 0u32);
    if n > 0 {
        lemma_sum_zero((n - 1) as nat);
        assert(s.drop_last() =~= Seq::new((n - 1) as nat, |i: int| 0u32));
    }
}

/// A measurement keeps the running sum right.
pub proof fn lemma_recorded_consistent(l: Latencies, latency_us: u32, ms: u64)
    requires
        l.consistent(),
        l.window.len() > 0,
    ensures
        l.recorded(latency_us, ms).consistent(),
{
    let size = l.window.len() as int;
    let at = l.index as int % size;
    let r = l.recorded(latency_us, ms);
    lemma_sum_update(l.window, at, latency_us);
    let t = sum_us(l.window);
    let d = latency_us - l.window[at];
    lemma_add_mod_noop(t as int, d, 0x1_0000_0000);
    lemma_add_mod_noop(l.sum as int, d, 0x1_0000_0000);
    lemma_small_mod(l.sum as nat, 0x1_0000_0000);
    if l.count < size {
        lemma_small_mod(l.index as nat, size as nat);
    }
}

impl WindowLatency {
    /// The clock that the window reads.
    pub closed spec fn clock(&self) -> std::time::Instant {
        self.start
    }

    /// The window has its size and is consistent.
    pub closed spec fn well_formed(&self) -> bool {
        self@.consistent() && self.size == self.window.len()
    }

    /// What well-formed windows hold is consistent.
    pub proof fn lemma_well_formed(&self)
        requires
            self.well_formed(),
        ensures
            self@.consistent(),
    {
    }

    /// An empty window for `window_size` measurements.
    pub fn new(window_size: u32) -> (r: WindowLatency)
        ensures
            r.well_formed(),
            r@ == Latencies::empty(window_size as nat),
    {
        let mut window: Vec<u32> = Vec::new();
        let mut stamps: Vec<u64> = Vec::new();
        let mut i: u32 = 0;
        while i < window_size
            invariant
                i <= window_size,
                window.len() == i,
                stamps.len() == i,
                forall|j: int| 0 <= j < i ==> #[trigger] window@[j] == 0,
                forall|j: int| 0 <= j < i ==> #[trigger] stamps@[j] == 0,
            decreases window_size - i,
        {
            window.push(0);
            stamps.push(0);
            i = i + 1;
        }
        let r = WindowLatency {
            start: clock_start(),
            window,
            stamps,
            index: 0,
            size: window_size,
            sum: 0,
            count: 0,
        };
        proof {
            lemma_sum_zero(window_size as nat);
            assert(r@.window =~= Latencies::empty(window_size as nat).window);
            assert(r@.stamps =~= Latencies::empty(window_size as nat).stamps);
        }
        r
    }

    /// Records a latency measured `ms` milliseconds after the start.
    pub fn record_latency_at(&mut self, ms: u64, latency_us: u32)
        requires
            old(self).well_formed(),
            old(self)@.window.len() > 0,
        ensures
            final(self).well_formed(),
            final(self).clock() == old(self).clock(),
            final(self)@ == old(self)@.recorded(latency_us, ms),
    {
        proof {
            lemma_recorded_consistent(self@, latency_us, ms);
        }
        let index: u32 = self.index;
        self.index = index.wrapping_add(1);
        if self.count < self.size {
            self.count = self.count + 1;
        }
        let at: usize = (index % self.size) as usize;
        let old_lat: u32 = self.window[at];
        self.window.set(at, latency_us);
        self.stamps.set(at, ms);
        if old_lat < latency_us {
            self.sum = self.sum.wrapping_add(latency_us - old_lat);
        } else {
            self.sum = self.sum.wrapping_sub(old_lat - latency_us);
        }
        proof {
            assert(self@.window =~= old(self)@.recorded(latency_us, ms).window);
            assert(self@.stamps =~= old(self)@.recorded(latency_us, ms).stamps);
        }
    }

    /// Records a latency measured now.
    pub fn record_latency(&mut self, latency_us: u32)
        requires
            old(self).well_formed(),
            old(self)@.window.len() > 0,
        ensures
            final(self).well_formed(),
            final(self).clock() == old(self).clock(),
            exists|ms: u64| final(self)@ == #[trigger] old(self)@.recorded(latency_us, ms),
    {
        let ms = to_millis(nanos_since(&self.start));
        self.record_latency_at(ms, latency_us);
    }

    /// The mean latency, in microseconds.
    pub fn mean_us(&self) -> (r: u32)
        requires
            self.well_formed(),
        ensures
            r == self@.mean(),
    {
        self.get_latency_us::<u32>()
    }

    /// The mean latency, in microseconds, in a number type of the caller.
    pub fn get_latency_us<T: From<u32> + Div<Output = T>>(&self) -> (r: T)
        requires
            self.well_formed(),
            self@.count != 0 ==> forall|a: T, b: T|
                call_ensures(T::from, (self@.sum,), a) && call_ensures(T::from, (self@.count,), b)
                    ==> #[trigger] a.div_req(b),
        ensures
            self@.count == 0 ==> call_ensures(T::from, (0u32,), r),
            self@.count != 0 ==> exists|a: T, b: T|
                call_ensures(T::from, (self@.sum,), a) && call_ensures(T::from, (self@.count,), b)
                    && #[trigger] call_ensures(T::div, (a, b), r),
    {
        if self.count == 0 {
            T::from(0)
        } else {
            let a = T::from(self.sum);
            let b = T::from(self.count);
            a.div(b)
        }
    }

    /// The standard deviation of the latencies, in microseconds.
    pub fn get_rttvar_us(&self) -> (r: u32)
        requires
            self.well_formed(),
            self@.spread() <= u64::MAX,
        ensures
            r == self@.deviation(),
    {
        if self.count == 0 {
            return 0;
        }
        let mean: u32 = self.mean_us();
        let ghost measured = self@.window.take(self@.count as int);
        let mut spread: u64 = 0;
        let mut i: usize = 0;
        assert(measured.take(0) =~= seq![]);
        while i < self.count as usize
            invariant
                i <= self.count,
                self.well_formed(),
                measured == self@.window.take(self@.count as int),
                mean == self@.mean(),
                squares(measured, mean) <= u64::MAX,
                spread == squares(measured.take(i as int), mean),
            decreases self.count - i,
        {
            let lat: u32 = self.window[i];
            let diff: u32 = if lat > mean {
                lat - mean
            } else {
                mean - lat
            };
            proof {
                assert(measured.take(i + 1).drop_last() =~= measured.take(i as int));
                assert(measured[i as int] == lat);
                lemma_squares_grow(measured, mean, i + 1);
                assert(diff * diff <= 0xffff_ffff * 0xffff_ffff) by (nonlinear_arith)
                    requires
                        0 <= diff <= 0xffff_ffff,
                ;
            }
            spread = spread + diff as u64 * diff as u64;
            i = i + 1;
        }
        assert(measured.take(i as int) =~= measured);
        F64::from_u64(spread / self.count as u64).sqrt().to_u32()
    }

    /// The smallest latency in the window, in microseconds; zero if there is none.
    pub fn get_min_rtt_us(&self) -> (r: u32)
        requires
            self.well_formed(),
        ensures
            forall|i: int|
                0 <= i < self@.count && Latencies::proper(#[trigger] self@.window[i]) ==> 0 < r
                    <= self@.window[i],
            r != 0 ==> Latencies::proper(r) && exists|i: int|
                0 <= i < self@.count && #[trigger] self@.window[i] == r,
    {
        let mut least: u32 = u32::MAX;
        let mut i: usize = 0;
        while i < self.count as usize
            invariant
                i <= self.count,
                self.well_formed(),
                least > 0,
                forall|j: int|
                    0 <= j < i && Latencies::proper(#[trigger] self@.window[j]) ==> least
                        <= self@.window[j],
                least != u32::MAX ==> exists|j: int|
                    0 <= j < self@.count && #[trigger] self@.window[j] == least,
            decreases self.count - i,
        {
            let lat: u32 = self.window[i];
            assert(self@.window[i as int] == lat);
            if lat > 0 && lat < least {
                least = lat;
            }
            i = i + 1;
        }
        if least == u32::MAX {
            0
        } else {
            least
        }
    }

    /// The age of the last measurement at `now_ms` milliseconds after the start; the largest
    /// 32-bit number without measurements.
    pub fn last_response_age_at(&self, now_ms: u64) -> (r: u64)
        requires
            self.well_formed(),
            self@.index != 0 ==> now_ms >= self@.last_stamp(),
        ensures
            self@.index == 0 ==> r == 0xffff_ffff,
            self@.index != 0 ==> r == self@.age(now_ms),
    {
        if self.index == 0 {
            return 0xffff_ffff;
        }
        now_ms - self.stamps[((self.index - 1) % self.size) as usize]
    }

    /// The age of the last measurement, in milliseconds, in a number type of the caller.
    pub fn get_last_response_age_ms<T: From<u64> + Div<Output = T>>(&self) -> (r: T)
        requires
            self.well_formed(),
        ensures
            self@.index == 0 ==> call_ensures(T::from, (0xffff_ffffu64,), r),
            self@.index != 0 ==> exists|ms: u64|
                ms >= self@.last_stamp() && call_ensures(T::from, (#[trigger] self@.age(ms),), r),
    {
        let reading: u64 = to_millis(nanos_since(&self.start));
        let mut now_ms: u64 = reading;
        if self.index != 0 {
            let last: u64 = self.stamps[((self.index - 1) % self.size) as usize];
            if now_ms < last {
                now_ms = last;
            }
        }
        let age: u64 = self.last_response_age_at(now_ms);
        T::from(age)
    }
}

proof fn lemma_squares_grow(s: Seq<u32>, mean: u32, k: int)
    requires
        0 <= k <= s.len(),
    ensures
        squares(s.take(k), mean) <= squares(s, mean),
    decreases s.len(),
{
    if k == s.len() {
        assert(s.take(k) =~= s);
    } else {
        lemma_squares_grow(s.drop_last(), mean, k);
        assert(s.drop_last().take(k) =~= s.take(k));
        let d = distance(s.last() as int, mean as int);
        assert(d * d >= 0) by (nonlinear_arith)
            requires
                d >= 0,
        ;
    }
}

/// A window of `size` places after a history of measurements.
pub open spec fn after(size: nat, history: Seq<(u32, u64)>) -> Latencies
    decreases history.len(),
{
    if history.len() == 0 {
        Latencies::empty(size)
    } else {
        after(size, history.drop_last()).recorded(history.last().0, history.last().1)
    }
}

/// The latencies of the last `k` measurements.
pub open spec fn last_latencies(history: Seq<(u32, u64)>, k: int) -> Seq<u32> {
    Seq::new(k as nat, |i: int| history[history.len() - k + i].0)
}

proof fn lemma_sum_first(s: Seq<u32>)
    requires
        s.len() > 0,
    ensures
        sum_us(s) == s[0] + sum_us(s.drop_first()),
    decreases s.len(),
{
    if s.len() > 1 {
        lemma_sum_first(s.drop_last());
        assert(s.drop_last().drop_first() =~= s.drop_first().drop_last());
        assert(s.drop_first().last() == s.last());
    } else {
        assert(s.drop_last() =~= s.drop_first());
        assert(s.drop_first() =~= seq![]);
    }
}

proof fn lemma_apart(i: int, j: int, size: int)
    requires
        0 <= i < j < i + size,
    ensures
        i % size != j % size,
{
    if i % size == j % size {
        lemma_fundamental_div_mod(i, size);
        lemma_fundamental_div_mod(j, size);
        let (a, b) = (i / size, j / size);
        assert(false) by (nonlinear_arith)
            requires
                0 < j - i < size,
                j - i == size * b - size * a,
        ;
    }
}

/// A window holds the last measurements, as many as it has places for: their latencies, when
/// they were made, and their sum. The mean is that of these latencies as long as their sum
/// stays below 2^32.
pub proof fn law_window_holds_the_last_measurements(size: nat, history: Seq<(u32, u64)>)
    requires
        0 < size <= u32::MAX,
        history.len() <= u32::MAX,
    ensures
        ({
            let w = after(size, history);
            let n = history.len() as int;
            let k = if n < size {
                n
            } else {
                size as int
            };
            &&& w.consistent()
            &&& w.window.len() == size
            &&& w.index == n
            &&& w.count == k
            &&& forall|j: int|
                n - k <= j < n ==> w.window[j % size as int] == (#[trigger] history[j]).0
                    && w.stamps[j % size as int] == history[j].1
            &&& sum_us(w.window) == sum_us(last_latencies(history, k))
            &&& n == 0 ==> w.mean() == 0
            &&& n > 0 ==> w.last_stamp() == history[n - 1].1
            &&& n > 0 && sum_us(last_latencies(history, k)) <= u32::MAX ==> w.mean() == sum_us(
                last_latencies(history, k),
            ) / k as nat
        }),
    decreases history.len(),
{
    let n = history.len() as int;
    let z = size as int;
    let w = after(size, history);
    if n == 0 {
        lemma_sum_zero(size);
        assert(last_latencies(history, 0) =~= seq![]);
    } else {
        let front = history.drop_last();
        law_window_holds_the_last_measurements(size, front);
        let v = after(size, front);
        let (x, ms) = history.last();
        let m = n - 1;
        let k = if m < z {
            m
        } else {
            z
        };
        let k2 = if n < z {
            n
        } else {
            z
        };
        let at = m % z;
        lemma_recorded_consistent(v, x, ms);
        lemma_sum_update(v.window, at, x);
        assert forall|j: int| n - k2 <= j < n implies w.window[j % z] == (#[trigger] history[j]).0
            && w.stamps[j % z] == history[j].1 by {
            if j < m {
                lemma_apart(j, m, z);
                assert(front[j] == history[j]);
                assert(m - k <= j);
            }
        }
        let (a, b) = (last_latencies(front, k), last_latencies(history, k2));
        if m < z {
            lemma_small_mod(m as nat, size);
            assert(v.window[at] == 0);
            assert(b.drop_last() =~= a);
        } else {
            let o = m - z;
            assert(o % z == at) by {
                lemma_mod_add_multiples_vanish(o, z);
            }
            assert(v.window[o % z] == front[o].0);
            lemma_sum_first(a);
            assert(b.drop_last() =~= a.drop_first());
        }
        assert(b.last() == x);
        assert(sum_us(b) == sum_us(b.drop_last()) + b.last() as nat);
        lemma_small_mod(sum_us(b) % 0x1_0000_0000, 0x1_0000_0000);
        if sum_us(b) <= u32::MAX {
            lemma_small_mod(sum_us(b), 0x1_0000_0000);
        }
        assert((w.index - 1) % z == at);
    }
}

} // verus!
