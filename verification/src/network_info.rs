//! Bandwidth measurement over a bounded window of packet samples, and the
//! smoothing filter shared by every connection metric.
//!
//! All quantities are integers. Times are nanoseconds, ratios are counted in
//! millionths ([`UNIT`] stands for one), and throughput is counted in
//! thousandths of a kilobit per second, that is in bits per second.
use std::collections::VecDeque;
use vstd::prelude::*;

verus! {

/// The value that stands for the ratio one.
pub const UNIT: u64 = 1_000_000;

/// Nanoseconds in one second.
pub const NANOS_PER_SECOND: u64 = 1_000_000_000;

/// Number of samples kept for each direction of a connection.
pub const CIRCULAR_BUFFER_SIZE: usize = 60;

/// Largest capacity for which a window's throughput is computed.
pub const MAX_WINDOW: usize = 0x1_0000;

/// Network informations about a connection.
#[derive(Debug, Clone, Copy)]
pub struct NetworkInfo {
    /// Round-trip time, in nanoseconds.
    pub rtt: u64,
    /// Sent kilobits per second, in thousandths.
    pub sent_kbps: u128,
    /// Received kilobits per second, in thousandths.
    pub received_kbps: u128,
    /// Fraction of the sent packets that were lost, in millionths.
    pub packet_loss: u64,
}

impl Default for NetworkInfo {
    fn default() -> (info: Self)
        ensures
            info == (NetworkInfo { rtt: 0, sent_kbps: 0, received_kbps: 0, packet_loss: 0 }),
    {
        NetworkInfo { rtt: 0, sent_kbps: 0, received_kbps: 0, packet_loss: 0 }
    }
}

/// One sample of the window: when a packet passed, and how many bytes it had.
#[derive(Debug, Clone, Copy)]
pub struct PacketInfo {
    pub time: u64,
    pub size: usize,
}

impl PacketInfo {
    pub fn new(time: u64, size: usize) -> (info: Self)
        ensures
            info == (PacketInfo { time, size }),
    {
        Self { time, size }
    }
}

/// The filter `current + (sample - current) * factor`, with `factor` in
/// millionths. The step is rounded towards `current`.
pub open spec fn smoothed(current: int, sample: int, factor: int) -> int {
    if sample >= current {
        current + ((sample - current) * factor) / (UNIT as int)
    } else {
        current - ((current - sample) * factor) / (UNIT as int)
    }
}

/// The estimate that follows `current` once `sample` was measured: the first
/// sample, and any sample that finds the estimate at zero, is taken as it is.
pub open spec fn next_estimate(current: int, sample: int, factor: int) -> int {
    if current == 0 {
        sample
    } else {
        smoothed(current, sample, factor)
    }
}

proof fn lemma_scaled_step(delta: int, factor: int)
    requires
        0 <= delta,
        0 <= factor <= UNIT,
    ensures
        (delta * factor) / (UNIT as int) == (delta / (UNIT as int)) * factor + ((delta % (
        UNIT as int)) * factor) / (UNIT as int),
        0 <= (delta * factor) / (UNIT as int) <= delta,
        0 <= (delta / (UNIT as int)) * factor <= delta,
        0 <= (delta % (UNIT as int)) * factor <= UNIT * UNIT,
{
    let u = UNIT as int;
    let q = delta / u;
    let r = delta % u;
    assert(delta == q * u + r);
    assert(delta * factor == (q * factor) * u + r * factor) by (nonlinear_arith)
        requires
            delta == q * u + r,
    ;
    assert(0 <= q * factor <= q * u) by (nonlinear_arith)
        requires
            0 <= q,
            0 <= factor <= u,
    ;
    assert(0 <= r * factor <= u * u) by (nonlinear_arith)
        requires
            0 <= r < u,
            0 <= factor <= u,
    ;
    assert(0 <= r * factor <= r * u) by (nonlinear_arith)
        requires
            0 <= r,
            0 <= factor <= u,
    ;
    assert(((q * factor) * u + r * factor) / u == q * factor + (r * factor) / u) by (
        nonlinear_arith)
        requires
            u > 0,
            0 <= r * factor,
    ;
    assert((r * factor) / u <= r) by (nonlinear_arith)
        requires
            u > 0,
            0 <= r * factor <= r * u,
    ;
}

/// Moves `current` towards `sample` by the fraction `factor`.
pub fn smooth(current: u128, sample: u128, factor: u32) -> (next: u128)
    requires
        factor <= UNIT,
    ensures
        next == smoothed(current as int, sample as int, factor as int),
        current <= sample ==> current <= next <= sample,
        sample <= current ==> sample <= next <= current,
{
    let unit: u128 = 1_000_000;
    let scale: u128 = factor as u128;
    if sample >= current {
        let delta: u128 = sample - current;
        proof {
            lemma_scaled_step(delta as int, factor as int);
        }
        let step: u128 = (delta / unit) * scale + ((delta % unit) * scale) / unit;
        current + step
    } else {
        let delta: u128 = current - sample;
        proof {
            lemma_scaled_step(delta as int, factor as int);
        }
        let step: u128 = (delta / unit) * scale + ((delta % unit) * scale) / unit;
        current - step
    }
}

/// The estimate after one more measurement; see [`next_estimate`].
pub fn estimate(current: u128, sample: u128, factor: u32) -> (next: u128)
    requires
        factor <= UNIT,
    ensures
        next == next_estimate(current as int, sample as int, factor as int),
{
    if current == 0 {
        sample
    } else {
        smooth(current, sample, factor)
    }
}

/// The next estimate lies between the current one and the sample.
pub proof fn lemma_estimate_between(current: int, sample: int, factor: int)
    requires
        0 <= factor <= UNIT,
    ensures
        current <= sample ==> current <= next_estimate(current, sample, factor) <= sample,
        sample <= current ==> sample <= next_estimate(current, sample, factor) <= current,
{
    if sample >= current {
        lemma_scaled_step(sample - current, factor);
    } else {
        lemma_scaled_step(current - sample, factor);
    }
}

/// With the factor one the estimate follows each measurement exactly.
pub proof fn lemma_full_factor_tracks_sample(current: int, sample: int)
    ensures
        smoothed(current, sample, UNIT as int) == sample,
        next_estimate(current, sample, UNIT as int) == sample,
{
    let u = UNIT as int;
    assert(((sample - current) * u) / u == sample - current) by (nonlinear_arith)
        requires
            u > 0,
    ;
    assert(((current - sample) * u) / u == current - sample) by (nonlinear_arith)
        requires
            u > 0,
    ;
}

/// With the factor zero an estimate that was set once never moves again.
pub proof fn lemma_zero_factor_keeps_estimate(current: int, sample: int)
    ensures
        smoothed(current, sample, 0) == current,
        current != 0 ==> next_estimate(current, sample, 0) == current,
{
    assert((sample - current) * 0 == 0);
    assert((current - sample) * 0 == 0);
}

/// A bounded window that keeps the `N` newest values, newest first.
pub struct CircularBuffer<const N: usize, T> {
    queue: VecDeque<T>,
}

impl<const N: usize, T> View for CircularBuffer<N, T> {
    type V = Seq<T>;

    closed spec fn view(&self) -> Seq<T> {
        self.queue@
    }
}

impl<const N: usize, T> CircularBuffer<N, T> {
    /// No window holds more than `N` values.
    pub open spec fn wf(&self) -> bool {
        self@.len() <= N
    }

    /// An empty window.
    pub fn new() -> (buffer: Self)
        ensures
            buffer@ == Seq::<T>::empty(),
            buffer.wf(),
    {
        CircularBuffer { queue: VecDeque::new() }
    }

    pub fn len(&self) -> (n: usize)
        ensures
            n == self@.len(),
    {
        self.queue.len()
    }

    /// The value at position `index`, counted from the newest.
    pub fn get(&self, index: usize) -> (value: &T)
        requires
            index < self@.len(),
        ensures
            *value == self@[index as int],
    {
        &self.queue[index]
    }

    /// Puts `value` in front; a full window gives up its oldest value.
    pub fn push(&mut self, value: T)
        ensures
            final(self)@ == pushed::<T>(old(self)@, value, N as nat),
            old(self).wf() ==> final(self).wf(),
    {
        if N == 0 {
            return ;
        }
        if self.queue.len() >= N {
            self.queue.truncate(N - 1);
        }
        self.queue.push_front(value);
    }
}

/// The window `s` of capacity `capacity` after `value` came in.
pub open spec fn pushed<T>(s: Seq<T>, value: T, capacity: nat) -> Seq<T> {
    if capacity == 0 {
        s
    } else if s.len() >= capacity {
        seq![value] + s.subrange(0, capacity - 1)
    } else {
        seq![value] + s
    }
}

/// Bytes carried by the samples of `s`.
pub open spec fn total_size(s: Seq<PacketInfo>) -> nat
    decreases s.len(),
{
    if s.len() == 0 {
        0
    } else {
        total_size(s.drop_last()) + s.last().size as nat
    }
}

/// Earliest time among the samples of `s` that carry bytes, `u64::MAX` if
/// none does.
pub open spec fn first_time(s: Seq<PacketInfo>) -> int
    decreases s.len(),
{
    if s.len() == 0 {
        u64::MAX as int
    } else {
        let rest = first_time(s.drop_last());
        if s.last().size != 0 && s.last().time < rest {
            s.last().time as int
        } else {
            rest
        }
    }
}

/// Latest time among the samples of `s` that carry bytes, zero if none does.
pub open spec fn last_time(s: Seq<PacketInfo>) -> int
    decreases s.len(),
{
    if s.len() == 0 {
        0
    } else {
        let rest = last_time(s.drop_last());
        if s.last().size != 0 && s.last().time > rest {
            s.last().time as int
        } else {
            rest
        }
    }
}

/// Throughput of the window `s`: eight bits for each byte, over the time
/// between the first and the last sample that carry bytes. A window without
/// such a span has the throughput zero.
pub open spec fn throughput(s: Seq<PacketInfo>) -> nat {
    let start = first_time(s);
    let end = last_time(s);
    if start >= end {
        0
    } else {
        ((total_size(s) * 8 * NANOS_PER_SECOND) / (end - start)) as nat
    }
}

proof fn lemma_window_bounds(s: Seq<PacketInfo>)
    ensures
        total_size(s) <= s.len() * usize::MAX,
        0 <= first_time(s) <= u64::MAX,
        0 <= last_time(s) <= u64::MAX,
    decreases s.len(),
{
    if s.len() > 0 {
        lemma_window_bounds(s.drop_last());
        assert((s.len() - 1) * usize::MAX + usize::MAX == s.len() * usize::MAX) by (
            nonlinear_arith);
    }
}

impl<const N: usize> CircularBuffer<N, PacketInfo> {
    /// Throughput over the window, in thousandths of a kilobit per second.
    pub fn kilobits_per_second(&self) -> (kbps: u128)
        requires
            self.wf(),
            N <= MAX_WINDOW,
        ensures
            kbps == throughput(self@),
    {
        let mut start: u64 = u64::MAX;
        let mut end: u64 = 0;
        let mut bytes_sent: u128 = 0;
        let n: usize = self.queue.len();
        let mut i: usize = 0;
        while i < n
            invariant
                i <= n,
                n == self.queue@.len(),
                n <= MAX_WINDOW,
                start == first_time(self.queue@.subrange(0, i as int)),
                end == last_time(self.queue@.subrange(0, i as int)),
                bytes_sent == total_size(self.queue@.subrange(0, i as int)),
            decreases n - i,
        {
            let packet_info = self.queue[i];
            proof {
                let prefix = self.queue@.subrange(0, i as int);
                let next = self.queue@.subrange(0, i + 1);
                assert(next.drop_last() =~= prefix);
                assert(next.last() == self.queue@[i as int]);
                lemma_window_bounds(prefix);
                assert(prefix.len() * usize::MAX <= 0xFFFF * usize::MAX) by (nonlinear_arith)
                    requires
                        prefix.len() <= 0xFFFF,
                ;
            }
            if packet_info.size != 0 {
                if packet_info.time < start {
                    start = packet_info.time;
                }
                if packet_info.time > end {
                    end = packet_info.time;
                }
            }
            bytes_sent = bytes_sent + packet_info.size as u128;
            i = i + 1;
        }
        proof {
            assert(self.queue@.subrange(0, n as int) =~= self.queue@);
            lemma_window_bounds(self.queue@);
            assert(self.queue@.len() * usize::MAX <= 0x1_0000 * usize::MAX) by (nonlinear_arith)
                requires
                    self.queue@.len() <= 0x1_0000,
            ;
        }
        if start >= end {
            return 0;
        }
        let span: u128 = (end - start) as u128;
        (bytes_sent * 8 * 1_000_000_000) / span
    }
}

/// Throughput of one connection in both directions, measured over the newest
/// samples and smoothed.
pub struct BandwidthInfo {
    packets_sent: CircularBuffer<CIRCULAR_BUFFER_SIZE, PacketInfo>,
    packets_received: CircularBuffer<CIRCULAR_BUFFER_SIZE, PacketInfo>,
    bandwidth_smoothing_factor: u32,
    /// Sent kilobits per second, in thousandths.
    pub sent_kbps: u128,
    /// Received kilobits per second, in thousandths.
    pub received_kbps: u128,
}

impl BandwidthInfo {
    /// The samples of sent packets, newest first.
    pub closed spec fn sent(&self) -> Seq<PacketInfo> {
        self.packets_sent@
    }

    /// The samples of received packets, newest first.
    pub closed spec fn received(&self) -> Seq<PacketInfo> {
        self.packets_received@
    }

    /// The smoothing factor, in millionths.
    pub closed spec fn factor(&self) -> u32 {
        self.bandwidth_smoothing_factor
    }

    /// The field `sent_kbps`.
    pub closed spec fn sent_rate(&self) -> u128 {
        self.sent_kbps
    }

    /// The field `received_kbps`.
    pub closed spec fn received_rate(&self) -> u128 {
        self.received_kbps
    }

    /// Neither window is over its capacity, and the factor is at most one.
    pub closed spec fn wf(&self) -> bool {
        &&& self.packets_sent.wf()
        &&& self.packets_received.wf()
        &&& self.bandwidth_smoothing_factor <= UNIT
    }

    /// What the invariant says: each window holds at most its capacity of
    /// samples, and the factor is at most one.
    pub proof fn lemma_wf(&self)
        ensures
            self.wf() <==> self.sent().len() <= CIRCULAR_BUFFER_SIZE && self.received().len()
                <= CIRCULAR_BUFFER_SIZE && self.factor() <= UNIT,
    {
    }

    pub fn new(bandwidth_smoothing_factor: u32) -> (info: Self)
        requires
            bandwidth_smoothing_factor <= UNIT,
        ensures
            info.wf(),
            info.factor() == bandwidth_smoothing_factor,
            info.sent() == Seq::<PacketInfo>::empty(),
            info.received() == Seq::<PacketInfo>::empty(),
            info.sent_rate() == 0,
            info.received_rate() == 0,
    {
        Self {
            packets_sent: CircularBuffer::new(),
            packets_received: CircularBuffer::new(),
            sent_kbps: 0,
            received_kbps: 0,
            bandwidth_smoothing_factor,
        }
    }

    /// Sent kilobits per second, in thousandths.
    pub fn sent_kbps(&self) -> (rate: u128)
        ensures
            rate == self.sent_rate(),
    {
        self.sent_kbps
    }

    /// Received kilobits per second, in thousandths.
    pub fn received_kbps(&self) -> (rate: u128)
        ensures
            rate == self.received_rate(),
    {
        self.received_kbps
    }

    pub fn sent_packet(&mut self, time: u64, size: usize)
        ensures
            old(self).wf() ==> final(self).wf(),
            final(self).sent() == pushed(
                old(self).sent(),
                PacketInfo { time, size },
                CIRCULAR_BUFFER_SIZE as nat,
            ),
            final(self).received() == old(self).received(),
            final(self).factor() == old(self).factor(),
            final(self).sent_rate() == old(self).sent_rate(),
            final(self).received_rate() == old(self).received_rate(),
    {
        self.packets_sent.push(PacketInfo::new(time, size));
    }

    pub fn received_packet(&mut self, time: u64, size: usize)
        ensures
            old(self).wf() ==> final(self).wf(),
            final(self).received() == pushed(
                old(self).received(),
                PacketInfo { time, size },
                CIRCULAR_BUFFER_SIZE as nat,
            ),
            final(self).sent() == old(self).sent(),
            final(self).factor() == old(self).factor(),
            final(self).sent_rate() == old(self).sent_rate(),
            final(self).received_rate() == old(self).received_rate(),
    {
        self.packets_received.push(PacketInfo::new(time, size));
    }

    /// Measures both windows and moves the two estimates towards what was
    /// measured.
    pub fn update_metrics(&mut self)
        requires
            old(self).wf(),
        ensures
            final(self).wf(),
            final(self).sent() == old(self).sent(),
            final(self).received() == old(self).received(),
            final(self).factor() == old(self).factor(),
            final(self).sent_rate() == next_estimate(
                old(self).sent_rate() as int,
                throughput(old(self).sent()) as int,
                old(self).factor() as int,
            ),
            final(self).received_rate() == next_estimate(
                old(self).received_rate() as int,
                throughput(old(self).received()) as int,
                old(self).factor() as int,
            ),
    {
        let sent_kbps = self.packets_sent.kilobits_per_second();
        self.sent_kbps = estimate(self.sent_kbps, sent_kbps, self.bandwidth_smoothing_factor);
        let received_kbps = self.packets_received.kilobits_per_second();
        self.received_kbps = estimate(
            self.received_kbps,
            received_kbps,
            self.bandwidth_smoothing_factor,
        );
    }
}

} // verus!
