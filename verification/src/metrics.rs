//! Counters, gauges and latency histograms of the pipeline.
//!
//! The record is plain data: each stage updates it through the functions
//! below, and an exporter outside this crate publishes it. Counters wrap
//! around on overflow.
use vstd::prelude::*;
use crate::pool::{TsKind, CHAN_A, CHAN_B, CHAN_R};
use crate::wire::{u64_to_i64, as_signed_64};

verus! {

/// One counter per channel tag; tags other than A, B and R share `other`.
#[derive(Debug, Clone, Copy, PartialEq, Eq, Structural)]
pub struct ByChan {
    pub a: u64,
    pub b: u64,
    pub r: u64,
    pub other: u64,
}

impl ByChan {
    /// The counter that `chan` is counted under.
    pub open spec fn of(self, chan: u8) -> u64 {
        if chan == CHAN_A {
            self.a
        } else if chan == CHAN_B {
            self.b
        } else if chan == CHAN_R {
            self.r
        } else {
            self.other
        }
    }

    /// The counters after `n` has been added to the one of `chan`.
    pub open spec fn bumped(self, chan: u8, n: u64) -> ByChan {
        if chan == CHAN_A {
            ByChan { a: self.a.wrapping_add(n), ..self }
        } else if chan == CHAN_B {
            ByChan { b: self.b.wrapping_add(n), ..self }
        } else if chan == CHAN_R {
            ByChan { r: self.r.wrapping_add(n), ..self }
        } else {
            ByChan { other: self.other.wrapping_add(n), ..self }
        }
    }

    fn bump(&mut self, chan: u8, n: u64)
        ensures
            *final(self) == old(self).bumped(chan, n),
    {
        if chan == CHAN_A {
            self.a = self.a.wrapping_add(n);
        } else if chan == CHAN_B {
            self.b = self.b.wrapping_add(n);
        } else if chan == CHAN_R {
            self.r = self.r.wrapping_add(n);
        } else {
            self.other = self.other.wrapping_add(n);
        }
    }
}

/// Upper bound, in nanoseconds, of latency bucket `i`; the bucket after the
/// last bound is unbounded.
pub open spec fn bucket_bound(i: int) -> int {
    if i == 0 {
        100
    } else if i == 1 {
        200
    } else if i == 2 {
        500
    } else if i == 3 {
        1_000
    } else if i == 4 {
        2_000
    } else if i == 5 {
        5_000
    } else if i == 6 {
        10_000
    } else if i == 7 {
        20_000
    } else if i == 8 {
        50_000
    } else {
        100_000
    }
}

/// The first of `n` buckets whose bound is at least `ns`, or `n` if there is none.
pub open spec fn bucket_of(ns: u64, n: int) -> int
    decreases n,
{
    if n <= 0 {
        0
    } else if bucket_of(ns, n - 1) < n - 1 {
        bucket_of(ns, n - 1)
    } else if ns <= bucket_bound(n - 1) {
        n - 1
    } else {
        n
    }
}

/// A latency histogram with `bounds` bounded buckets and one unbounded bucket.
#[derive(Debug, Clone, PartialEq, Eq)]
pub struct Histogram {
    /// Number of bounded buckets, at most 10.
    pub bounds: usize,
    /// Observations per bucket; `counts[bounds]` is the unbounded bucket.
    pub counts: Vec<u64>,
    /// Sum of the observed values, in nanoseconds.
    pub sum_ns: u64,
    /// Number of observations.
    pub count: u64,
}

/// What a histogram holds, as a mathematical value.
pub struct HistView {
    pub counts: Seq<u64>,
    pub sum_ns: u64,
    pub count: u64,
}

impl HistView {
    /// The histogram after one observation of `ns`: the bucket that takes
    /// `ns` counts one more, and so do the sum and the count.
    pub open spec fn observed(self, ns: u64) -> HistView {
        let i = bucket_of(ns, self.counts.len() - 1);
        HistView {
            counts: self.counts.update(i, self.counts[i].wrapping_add(1)),
            sum_ns: self.sum_ns.wrapping_add(ns),
            count: self.count.wrapping_add(1),
        }
    }
}

impl View for Histogram {
    type V = HistView;

    open spec fn view(&self) -> HistView {
        HistView { counts: self.counts@, sum_ns: self.sum_ns, count: self.count }
    }
}

impl Histogram {
    pub open spec fn wf(self) -> bool {
        &&& self.bounds <= 10
        &&& self.counts@.len() == self.bounds + 1
    }

    /// An empty histogram with `bounds` bounded buckets.
    pub fn new(bounds: usize) -> (h: Self)
        requires
            bounds <= 10,
        ensures
            h.wf(),
            h.bounds == bounds,
            h.counts@ == Seq::new((bounds + 1) as nat, |i: int| 0u64),
            h.sum_ns == 0,
            h.count == 0,
    {
        let mut counts: Vec<u64> = Vec::new();
        let mut i: usize = 0;
        while i <= bounds
            invariant
                bounds <= 10,
                i <= bounds + 1,
                counts@ == Seq::new(i as nat, |i: int| 0u64),
            decreases bounds + 1 - i,
        {
            counts.push(0);
            i += 1;
            assert(counts@ =~= Seq::new(i as nat, |i: int| 0u64));
        }
        Histogram { bounds, counts, sum_ns: 0, count: 0 }
    }

    /// Index of the bucket that takes `ns`.
    fn bucket_index(&self, ns: u64) -> (i: usize)
        requires
            self.wf(),
        ensures
            i == bucket_of(ns, self.bounds as int),
            i <= self.bounds,
    {
        let mut i: usize = 0;
        while i < self.bounds
            invariant
                i <= self.bounds <= 10,
                bucket_of(ns, i as int) == i,
            decreases self.bounds - i,
        {
            let bound: u64 = if i == 0 {
                100
            } else if i == 1 {
                200
            } else if i == 2 {
                500
            } else if i == 3 {
                1_000
            } else if i == 4 {
                2_000
            } else if i == 5 {
                5_000
            } else if i == 6 {
                10_000
            } else if i == 7 {
                20_000
            } else if i == 8 {
                50_000
            } else {
                100_000
            };
            if ns <= bound {
                proof {
                    lemma_bucket_found(ns, i as int, self.bounds as int);
                }
                return i;
            }
            i += 1;
        }
        i
    }

    /// Records one observation of `ns` nanoseconds.
    pub fn observe(&mut self, ns: u64)
        requires
            old(self).wf(),
        ensures
            final(self).wf(),
            final(self).bounds == old(self).bounds,
            final(self)@ == old(self)@.observed(ns),
    {
        let i = self.bucket_index(ns);
        let c = self.counts[i].wrapping_add(1);
        self.counts.set(i, c);
        self.sum_ns = self.sum_ns.wrapping_add(ns);
        self.count = self.count.wrapping_add(1);
    }
}

/// Once a bucket takes `ns`, wider histograms put it in the same bucket.
proof fn lemma_bucket_found(ns: u64, i: int, n: int)
    requires
        0 <= i < n,
        bucket_of(ns, i) == i,
        ns <= bucket_bound(i),
    ensures
        bucket_of(ns, n) == i,
    decreases n - i,
{
    if n == i + 1 {
    } else {
        lemma_bucket_found(ns, i, n - 1);
    }
}

/// A gauge for a queue's length, with the highest length seen.
#[derive(Debug, Clone, Copy, PartialEq, Eq, Structural)]
pub struct QueueGauge {
    pub len: i64,
    pub hwm: i64,
}

/// The queues whose lengths are reported.
#[derive(Debug, Clone, Copy, PartialEq, Eq, Structural)]
pub enum QueueId {
    RxA,
    RxB,
    Merged,
    Recovery,
}

/// Everything the pipeline reports about itself.
#[derive(Debug, Clone, PartialEq, Eq)]
pub struct Metrics {
    pub rx_packets: ByChan,
    pub rx_bytes: ByChan,
    pub rx_drops: ByChan,
    pub merge_duplicates: u64,
    pub merge_gaps: u64,
    pub merge_out_of_order: u64,
    pub merge_forward_packets: ByChan,
    pub merge_gaps_by_chan: ByChan,
    pub merge_failovers: u64,
    pub merge_preferred_is_a: i64,
    pub decode_packets: u64,
    pub decode_messages: u64,
    pub book_live_orders: i64,
    pub e2e_latency: Histogram,
    pub e2e_latency_sw: Histogram,
    pub e2e_latency_hw_sys: Histogram,
    pub e2e_latency_hw_raw: Histogram,
    pub stage_rx_to_merge: Histogram,
    pub stage_merge_to_decode: Histogram,
    pub queue_rx_a: QueueGauge,
    pub queue_rx_b: QueueGauge,
    pub queue_merged: QueueGauge,
    pub queue_recovery: QueueGauge,
    pub ws_clients: i64,
    pub out_frames: u64,
    pub out_bytes: u64,
    pub dropped_clients: u64,
}

/// What a metrics record holds, as a mathematical value.
pub struct MetricsView {
    pub rx_packets: ByChan,
    pub rx_bytes: ByChan,
    pub rx_drops: ByChan,
    pub merge_duplicates: u64,
    pub merge_gaps: u64,
    pub merge_out_of_order: u64,
    pub merge_forward_packets: ByChan,
    pub merge_gaps_by_chan: ByChan,
    pub merge_failovers: u64,
    pub merge_preferred_is_a: i64,
    pub decode_packets: u64,
    pub decode_messages: u64,
    pub book_live_orders: i64,
    pub e2e_latency: HistView,
    pub e2e_latency_sw: HistView,
    pub e2e_latency_hw_sys: HistView,
    pub e2e_latency_hw_raw: HistView,
    pub stage_rx_to_merge: HistView,
    pub stage_merge_to_decode: HistView,
    pub queue_rx_a: QueueGauge,
    pub queue_rx_b: QueueGauge,
    pub queue_merged: QueueGauge,
    pub queue_recovery: QueueGauge,
    pub ws_clients: i64,
    pub out_frames: u64,
    pub out_bytes: u64,
    pub dropped_clients: u64,
}

impl View for Metrics {
    type V = MetricsView;

    open spec fn view(&self) -> MetricsView {
        MetricsView {
            rx_packets: self.rx_packets,
            rx_bytes: self.rx_bytes,
            rx_drops: self.rx_drops,
            merge_duplicates: self.merge_duplicates,
            merge_gaps: self.merge_gaps,
            merge_out_of_order: self.merge_out_of_order,
            merge_forward_packets: self.merge_forward_packets,
            merge_gaps_by_chan: self.merge_gaps_by_chan,
            merge_failovers: self.merge_failovers,
            merge_preferred_is_a: self.merge_preferred_is_a,
            decode_packets: self.decode_packets,
            decode_messages: self.decode_messages,
            book_live_orders: self.book_live_orders,
            e2e_latency: self.e2e_latency@,
            e2e_latency_sw: self.e2e_latency_sw@,
            e2e_latency_hw_sys: self.e2e_latency_hw_sys@,
            e2e_latency_hw_raw: self.e2e_latency_hw_raw@,
            stage_rx_to_merge: self.stage_rx_to_merge@,
            stage_merge_to_decode: self.stage_merge_to_decode@,
            queue_rx_a: self.queue_rx_a,
            queue_rx_b: self.queue_rx_b,
            queue_merged: self.queue_merged,
            queue_recovery: self.queue_recovery,
            ws_clients: self.ws_clients,
            out_frames: self.out_frames,
            out_bytes: self.out_bytes,
            dropped_clients: self.dropped_clients,
        }
    }
}

impl Metrics {
    /// Every histogram has the bucket layout it was created with.
    pub open spec fn wf(self) -> bool {
        &&& self.e2e_latency.wf() && self.e2e_latency.bounds == 10
        &&& self.e2e_latency_sw.wf() && self.e2e_latency_sw.bounds == 10
        &&& self.e2e_latency_hw_sys.wf() && self.e2e_latency_hw_sys.bounds == 10
        &&& self.e2e_latency_hw_raw.wf() && self.e2e_latency_hw_raw.bounds == 10
        &&& self.stage_rx_to_merge.wf() && self.stage_rx_to_merge.bounds == 8
        &&& self.stage_merge_to_decode.wf() && self.stage_merge_to_decode.bounds == 8
    }

    /// The gauge of `queue`.
    pub open spec fn queue(self, queue: QueueId) -> QueueGauge {
        match queue {
            QueueId::RxA => self.queue_rx_a,
            QueueId::RxB => self.queue_rx_b,
            QueueId::Merged => self.queue_merged,
            QueueId::Recovery => self.queue_recovery,
        }
    }

    /// The record with the gauge of `queue` replaced by `g`.
    pub open spec fn with_queue(self, queue: QueueId, g: QueueGauge) -> Metrics {
        match queue {
            QueueId::RxA => Metrics { queue_rx_a: g, ..self },
            QueueId::RxB => Metrics { queue_rx_b: g, ..self },
            QueueId::Merged => Metrics { queue_merged: g, ..self },
            QueueId::Recovery => Metrics { queue_recovery: g, ..self },
        }
    }

    /// A record with every counter and gauge at zero, except that channel A
    /// is reported as preferred.
    pub fn new() -> (m: Self)
        ensures
            m.wf(),
            m.rx_packets == (ByChan { a: 0, b: 0, r: 0, other: 0 }),
            m.rx_bytes == m.rx_packets,
            m.rx_drops == m.rx_packets,
            m.merge_forward_packets == m.rx_packets,
            m.merge_gaps_by_chan == m.rx_packets,
            m.merge_duplicates == 0,
            m.merge_gaps == 0,
            m.merge_out_of_order == 0,
            m.merge_failovers == 0,
            m.merge_preferred_is_a == 1,
            m.decode_packets == 0,
            m.decode_messages == 0,
            m.book_live_orders == 0,
            m.e2e_latency.count == 0,
            m.e2e_latency_sw.count == 0,
            m.e2e_latency_hw_sys.count == 0,
            m.e2e_latency_hw_raw.count == 0,
            m.stage_rx_to_merge.count == 0,
            m.stage_merge_to_decode.count == 0,
            m.queue_rx_a == (QueueGauge { len: 0, hwm: 0 }),
            m.queue_rx_b == m.queue_rx_a,
            m.queue_merged == m.queue_rx_a,
            m.queue_recovery == m.queue_rx_a,
            m.ws_clients == 0,
            m.out_frames == 0,
            m.out_bytes == 0,
            m.dropped_clients == 0,
    {
        let z = ByChan { a: 0, b: 0, r: 0, other: 0 };
        let g = QueueGauge { len: 0, hwm: 0 };
        Metrics {
            rx_packets: z,
            rx_bytes: z,
            rx_drops: z,
            merge_duplicates: 0,
            merge_gaps: 0,
            merge_out_of_order: 0,
            merge_forward_packets: z,
            merge_gaps_by_chan: z,
            merge_failovers: 0,
            merge_preferred_is_a: 1,
            decode_packets: 0,
            decode_messages: 0,
            book_live_orders: 0,
            e2e_latency: Histogram::new(10),
            e2e_latency_sw: Histogram::new(10),
            e2e_latency_hw_sys: Histogram::new(10),
            e2e_latency_hw_raw: Histogram::new(10),
            stage_rx_to_merge: Histogram::new(8),
            stage_merge_to_decode: Histogram::new(8),
            queue_rx_a: g,
            queue_rx_b: g,
            queue_merged: g,
            queue_recovery: g,
            ws_clients: 0,
            out_frames: 0,
            out_bytes: 0,
            dropped_clients: 0,
        }
    }
}

/// Counts one received packet of `bytes` bytes on `chan`.
pub fn inc_rx(m: &mut Metrics, chan: u8, bytes: usize)
    ensures
        *final(m) == (Metrics {
            rx_packets: old(m).rx_packets.bumped(chan, 1),
            rx_bytes: old(m).rx_bytes.bumped(chan, bytes as u64),
            ..*old(m)
        }),
{
    m.rx_packets.bump(chan, 1);
    m.rx_bytes.bump(chan, bytes as u64);
}

/// Counts one packet dropped at the receive stage of `chan`.
pub fn inc_rx_drop(m: &mut Metrics, chan: u8)
    ensures
        *final(m) == (Metrics { rx_drops: old(m).rx_drops.bumped(chan, 1), ..*old(m) }),
{
    m.rx_drops.bump(chan, 1);
}

/// Counts one duplicate filtered by the arbiter.
pub fn inc_merge_dup(m: &mut Metrics)
    ensures
        *final(m) == (Metrics { merge_duplicates: old(m).merge_duplicates.wrapping_add(1), ..*old(m) }),
{
    m.merge_duplicates = m.merge_duplicates.wrapping_add(1);
}

/// Counts one gap seen by the arbiter.
pub fn inc_merge_gap(m: &mut Metrics)
    ensures
        *final(m) == (Metrics { merge_gaps: old(m).merge_gaps.wrapping_add(1), ..*old(m) }),
{
    m.merge_gaps = m.merge_gaps.wrapping_add(1);
}

/// Counts one packet released from the reorder buffer.
pub fn inc_merge_ooo(m: &mut Metrics)
    ensures
        *final(m) == (Metrics { merge_out_of_order: old(m).merge_out_of_order.wrapping_add(1), ..*old(m) }),
{
    m.merge_out_of_order = m.merge_out_of_order.wrapping_add(1);
}

/// Counts one packet forwarded by the arbiter, by the channel it came from.
pub fn inc_merge_forward_chan(m: &mut Metrics, chan: u8)
    ensures
        *final(m) == (Metrics {
            merge_forward_packets: old(m).merge_forward_packets.bumped(chan, 1),
            ..*old(m)
        }),
{
    m.merge_forward_packets.bump(chan, 1);
}

/// Counts one gap, by the channel whose packet revealed it.
pub fn inc_merge_gap_chan(m: &mut Metrics, chan: u8)
    ensures
        *final(m) == (Metrics { merge_gaps_by_chan: old(m).merge_gaps_by_chan.bumped(chan, 1), ..*old(m) }),
{
    m.merge_gaps_by_chan.bump(chan, 1);
}

/// Counts one switch of the preferred channel.
pub fn inc_merge_failover(m: &mut Metrics)
    ensures
        *final(m) == (Metrics { merge_failovers: old(m).merge_failovers.wrapping_add(1), ..*old(m) }),
{
    m.merge_failovers = m.merge_failovers.wrapping_add(1);
}

/// Reports which channel is preferred: 1 for A, 0 for B.
pub fn set_merge_preferred_is_a(m: &mut Metrics, is_a: bool)
    ensures
        *final(m) == (Metrics { merge_preferred_is_a: if is_a { 1i64 } else { 0i64 }, ..*old(m) }),
{
    m.merge_preferred_is_a = if is_a { 1 } else { 0 };
}

/// Counts one packet handed to the decoder.
pub fn inc_decode_pkts(m: &mut Metrics)
    ensures
        *final(m) == (Metrics { decode_packets: old(m).decode_packets.wrapping_add(1), ..*old(m) }),
{
    m.decode_packets = m.decode_packets.wrapping_add(1);
}

/// Counts `n` decoded messages.
pub fn inc_decode_msgs(m: &mut Metrics, n: u64)
    ensures
        *final(m) == (Metrics { decode_messages: old(m).decode_messages.wrapping_add(n), ..*old(m) }),
{
    m.decode_messages = m.decode_messages.wrapping_add(n);
}

/// Reports the number of live orders.
pub fn set_live_orders(m: &mut Metrics, n: usize)
    ensures
        *final(m) == (Metrics { book_live_orders: as_signed_64(n as int) as i64, ..*old(m) }),
{
    m.book_live_orders = u64_to_i64(n as u64);
}

/// Records an end-to-end latency.
pub fn observe_latency_ns(m: &mut Metrics, ns: u64)
    requires
        old(m).wf(),
    ensures
        final(m).wf(),
        final(m)@ == (MetricsView { e2e_latency: old(m)@.e2e_latency.observed(ns), ..old(m)@ }),
{
    m.e2e_latency.observe(ns);
}

/// Records an end-to-end latency under the histogram of its timestamp source;
/// packets without a timestamp count as software-stamped.
pub fn observe_latency_by_kind_ns(m: &mut Metrics, kind: TsKind, ns: u64)
    requires
        old(m).wf(),
    ensures
        final(m).wf(),
        final(m)@ == match kind {
            TsKind::Sw | TsKind::Absent => MetricsView {
                e2e_latency_sw: old(m)@.e2e_latency_sw.observed(ns),
                ..old(m)@
            },
            TsKind::HwSys => MetricsView {
                e2e_latency_hw_sys: old(m)@.e2e_latency_hw_sys.observed(ns),
                ..old(m)@
            },
            TsKind::HwRaw => MetricsView {
                e2e_latency_hw_raw: old(m)@.e2e_latency_hw_raw.observed(ns),
                ..old(m)@
            },
        },
{
    match kind {
        TsKind::Sw | TsKind::Absent => m.e2e_latency_sw.observe(ns),
        TsKind::HwSys => m.e2e_latency_hw_sys.observe(ns),
        TsKind::HwRaw => m.e2e_latency_hw_raw.observe(ns),
    }
}

/// Records the time a packet spent between receive and arbitration.
pub fn observe_stage_rx_to_merge_ns(m: &mut Metrics, ns: u64)
    requires
        old(m).wf(),
    ensures
        final(m).wf(),
        final(m)@ == (MetricsView { stage_rx_to_merge: old(m)@.stage_rx_to_merge.observed(ns), ..old(m)@ }),
{
    m.stage_rx_to_merge.observe(ns);
}

/// Records the time a packet spent between arbitration and decoding.
pub fn observe_stage_merge_to_decode_ns(m: &mut Metrics, ns: u64)
    requires
        old(m).wf(),
    ensures
        final(m).wf(),
        final(m)@ == (MetricsView {
            stage_merge_to_decode: old(m)@.stage_merge_to_decode.observed(ns),
            ..old(m)@
        }),
{
    m.stage_merge_to_decode.observe(ns);
}

/// Reports the length of `queue` and raises its high-water mark if `len`
/// exceeds it.
pub fn set_queue_len(m: &mut Metrics, queue: QueueId, len: usize)
    ensures
        *final(m) == old(m).with_queue(
            queue,
            QueueGauge {
                len: as_signed_64(len as int) as i64,
                hwm: if old(m).queue(queue).hwm < as_signed_64(len as int) {
                    as_signed_64(len as int) as i64
                } else {
                    old(m).queue(queue).hwm
                },
            },
        ),
{
    let v = u64_to_i64(len as u64);
    let g = match queue {
        QueueId::RxA => m.queue_rx_a,
        QueueId::RxB => m.queue_rx_b,
        QueueId::Merged => m.queue_merged,
        QueueId::Recovery => m.queue_recovery,
    };
    let n = QueueGauge { len: v, hwm: if g.hwm < v { v } else { g.hwm } };
    match queue {
        QueueId::RxA => { m.queue_rx_a = n; },
        QueueId::RxB => { m.queue_rx_b = n; },
        QueueId::Merged => { m.queue_merged = n; },
        QueueId::Recovery => { m.queue_recovery = n; },
    }
}

/// Adds `delta` to the number of connected clients.
pub fn inc_ws_clients(m: &mut Metrics, delta: i64)
    ensures
        *final(m) == (Metrics { ws_clients: old(m).ws_clients.wrapping_add(delta), ..*old(m) }),
{
    m.ws_clients = m.ws_clients.wrapping_add(delta);
}

/// Counts one frame sent to a client.
pub fn inc_out_frames(m: &mut Metrics)
    ensures
        *final(m) == (Metrics { out_frames: old(m).out_frames.wrapping_add(1), ..*old(m) }),
{
    m.out_frames = m.out_frames.wrapping_add(1);
}

/// Counts `n` bytes sent to clients.
pub fn inc_out_bytes(m: &mut Metrics, n: usize)
    ensures
        *final(m) == (Metrics { out_bytes: old(m).out_bytes.wrapping_add(n as u64), ..*old(m) }),
{
    m.out_bytes = m.out_bytes.wrapping_add(n as u64);
}

/// Counts one client dropped for falling behind.
pub fn inc_dropped_clients(m: &mut Metrics)
    ensures
        *final(m) == (Metrics { dropped_clients: old(m).dropped_clients.wrapping_add(1), ..*old(m) }),
{
    m.dropped_clients = m.dropped_clients.wrapping_add(1);
}

} // verus!
