//! Arbitration of the two redundant feeds into one gap-free stream.
//!
//! The arbiter is a state machine. Each packet taken from a feed or from
//! replay is classified against the next expected sequence number: it is a
//! duplicate, it is the expected packet (and is forwarded, followed by every
//! buffered successor), it is early but within the reorder window (and is
//! buffered), or it reveals a gap (and replay is asked for the missing range).
//! The machine is described by `step`; `Merger::on_packet` implements it.
use vstd::prelude::*;
use crate::pool::{Pkt, CHAN_A, CHAN_B, CHAN_R};
use crate::metrics::{
    Metrics, MetricsView, inc_merge_dup, inc_merge_gap, inc_merge_ooo, inc_merge_forward_chan,
    inc_merge_gap_chan, inc_merge_failover, set_merge_preferred_is_a, observe_stage_rx_to_merge_ns,
};
use crate::spsc::SpscQueue;

verus! {

/// Consecutive forwards from the other channel after which B becomes preferred.
pub const SWITCH_TO_B_AFTER: u32 = 2;

/// Consecutive forwards from B, while B is preferred, after which A is preferred again.
pub const SWITCH_TO_A_AFTER: u32 = 8;

/// Number of forwarded packets between two adaptive checkpoints.
pub const CHECKPOINT_EVERY: u64 = 4096;

/// Upper limit of the adaptive dwell, in nanoseconds.
pub const MAX_DWELL_NS: u64 = 50_000_000;

/// Dwell used when the configuration gives none, in nanoseconds.
pub const DEFAULT_DWELL_NS: u64 = 2_000_000;

/// Most replayed packets taken in one round.
pub const RECOVERY_BATCH: usize = 32;

/// Smallest reorder window the adaptive checkpoint shrinks to.
pub const MIN_ADAPTIVE_WINDOW: u64 = 8;

/// Start-up parameters of the arbiter.
pub struct MergeConfig {
    pub next_seq: u64,
    pub reorder_window: u64,
    pub max_pending: usize,
    pub dwell_ns: u64,
    pub adaptive: bool,
    pub reorder_window_max: u64,
}

/// A missing range of sequence numbers, both ends included.
#[derive(Debug, Clone, Copy, PartialEq, Eq, Structural)]
pub struct Gap {
    pub from: u64,
    pub to: u64,
}

/// The scalar state of the arbiter.
#[derive(Debug, Clone, Copy, PartialEq, Eq, Structural)]
pub struct MergeVars {
    /// The sequence number that is forwarded next.
    pub next_seq: u64,
    /// Largest distance beyond `next_seq` at which a packet is buffered.
    pub reorder_window: u64,
    /// Packets counted as buffered.
    pub pending_count: usize,
    pub prefer_a: bool,
    pub streak_preferred: u32,
    pub streak_nonpreferred: u32,
    pub last_switch_ns: u64,
    pub min_dwell_ns: u64,
    pub forwarded_since_check: u64,
    pub recent_gaps: u64,
    pub recent_ooo: u64,
    pub switches_in_window: u32,
    /// Round-robin position among the workers of feed A.
    pub idx_a: usize,
    /// Round-robin position among the workers of feed B.
    pub idx_b: usize,
    pub max_pending: usize,
    pub dwell_ns: u64,
    pub adaptive: bool,
    pub reorder_window_max: u64,
}

/// The reorder ring: slot `seq mod len` holds a buffered packet with its
/// sequence number.
pub type Ring = Seq<Option<(u64, Pkt)>>;

/// How a packet relates to the next expected sequence number.
#[derive(Debug, Clone, Copy, PartialEq, Eq, Structural)]
pub enum Verdict {
    Duplicate,
    InOrder,
    Early,
    Gap,
}

/// Everything one step of the arbiter reads and writes.
pub struct MergeState {
    pub vars: MergeVars,
    pub ring: Ring,
    /// Packets forwarded so far, in order.
    pub out: Seq<Pkt>,
    /// Replay requests issued so far, in order.
    pub gaps: Seq<Gap>,
    /// Packets handed back so far, in order: duplicates, packets past the
    /// window, and stale packets that left the ring for a newer one. Their
    /// buffers are free for reuse.
    pub dropped: Seq<Pkt>,
    pub metrics: MetricsView,
}

/// `p` as it leaves the arbiter: stamped with the time of forwarding.
pub open spec fn stamp(p: Pkt, now: u64) -> Pkt {
    Pkt { merge_emit_ns: now, ..p }
}

/// The ring slot of sequence number `seq`.
pub open spec fn slot_of(seq: u64, cap: int) -> int {
    (seq as int) % cap
}

/// `next` advanced `n` times by one, wrapping around at 2^64.
pub open spec fn advance(next: u64, n: nat) -> u64
    decreases n,
{
    if n == 0 {
        next
    } else {
        advance(next, (n - 1) as nat).wrapping_add(1)
    }
}

/// Advancing from the successor is advancing once more.
pub proof fn lemma_advance_shift(next: u64, n: nat)
    ensures
        advance(next.wrapping_add(1), n) == advance(next, n + 1),
    decreases n,
{
    reveal_with_fuel(advance, 2);
    if n > 0 {
        lemma_advance_shift(next, (n - 1) as nat);
    }
}

/// Advancing twice is advancing by the sum.
pub proof fn lemma_advance_sum(next: u64, m: nat, n: nat)
    ensures
        advance(advance(next, m), n) == advance(next, m + n),
    decreases n,
{
    if n > 0 {
        lemma_advance_sum(next, m, (n - 1) as nat);
    }
}

/// `a - b`, or 0 where that is negative.
pub open spec fn monus(a: int, b: int) -> int {
    if a > b {
        a - b
    } else {
        0
    }
}

/// `a`, or `cap` where `a` exceeds it.
pub open spec fn at_most(a: int, cap: int) -> int {
    if a > cap {
        cap
    } else {
        a
    }
}

/// Number of occupied slots.
pub open spec fn occupied(ring: Ring) -> nat
    decreases ring.len(),
{
    if ring.len() == 0 {
        0
    } else {
        occupied(ring.drop_last()) + if ring.last() is Some {
            1nat
        } else {
            0nat
        }
    }
}

/// Clearing an occupied slot leaves one occupied slot fewer.
pub proof fn lemma_occupied_clear(ring: Ring, i: int)
    requires
        0 <= i < ring.len(),
        ring[i] is Some,
    ensures
        occupied(ring.update(i, None)) + 1 == occupied(ring),
    decreases ring.len(),
{
    let r2 = ring.update(i, None);
    if i == ring.len() - 1 {
        assert(r2.drop_last() =~= ring.drop_last());
    } else {
        lemma_occupied_clear(ring.drop_last(), i);
        assert(r2.drop_last() =~= ring.drop_last().update(i, None));
    }
}

/// The slot of `next` holds the packet with that sequence number.
pub open spec fn head_ready(ring: Ring, next: u64) -> bool {
    &&& ring.len() > 0
    &&& ring[slot_of(next, ring.len() as int)] matches Some(e)
    &&& e.0 == next
}

/// The buffered packets released once `next` is expected: the packet stored
/// under `next`, then the one under `next + 1`, and so on while the slot of
/// the expected number holds exactly that number.
pub open spec fn drained(ring: Ring, next: u64) -> Seq<Pkt>
    decreases occupied(ring),
{
    if head_ready(ring, next) {
        let i = slot_of(next, ring.len() as int);
        proof {
            lemma_occupied_clear(ring, i);
        }
        seq![ring[i].unwrap().1] + drained(ring.update(i, None), next.wrapping_add(1))
    } else {
        Seq::empty()
    }
}

/// The ring once the packets of `drained` have left it.
pub open spec fn ring_after_drain(ring: Ring, next: u64) -> Ring
    decreases occupied(ring),
{
    if head_ready(ring, next) {
        let i = slot_of(next, ring.len() as int);
        proof {
            lemma_occupied_clear(ring, i);
        }
        ring_after_drain(ring.update(i, None), next.wrapping_add(1))
    } else {
        ring
    }
}

/// Every buffered packet is stored under its own sequence number.
pub open spec fn ring_wf(ring: Ring) -> bool {
    &&& ring.len() > 0
    &&& forall|i: int| 0 <= i < ring.len() ==> (#[trigger] ring[i] matches Some(e) ==> e.1.seq == e.0)
}

/// Classifies sequence number `s`.
pub open spec fn classify(v: MergeVars, s: u64) -> Verdict {
    if s < v.next_seq {
        Verdict::Duplicate
    } else if s == v.next_seq {
        Verdict::InOrder
    } else if s - v.next_seq <= v.reorder_window && v.pending_count < v.max_pending {
        Verdict::Early
    } else {
        Verdict::Gap
    }
}

/// An early packet with number `s` is stored: its slot is free or holds a
/// number that was already passed. Otherwise the slot holds `s` itself or
/// another number that is still awaited, and the packet counts as a duplicate.
pub open spec fn stores(v: MergeVars, ring: Ring, s: u64) -> bool {
    match ring[slot_of(s, ring.len() as int)] {
        Some(e) => e.0 != s && e.0 < v.next_seq,
        None => true,
    }
}

/// The label a directly forwarded packet, or one that revealed a gap, is counted under.
pub open spec fn direct_label(chan: u8, from_recovery: bool) -> u8 {
    if from_recovery {
        CHAN_R
    } else if chan == CHAN_A {
        CHAN_A
    } else {
        CHAN_B
    }
}

/// The label a packet released from the ring is counted under.
pub open spec fn drained_label(chan: u8, from_recovery: bool) -> u8 {
    if chan == CHAN_A {
        CHAN_A
    } else if chan == CHAN_B || !from_recovery {
        CHAN_B
    } else {
        CHAN_R
    }
}

/// The preference state after a forward from feed A (`was_a`) or from B at time `now`.
///
/// A forward from the preferred feed lengthens its streak and clears the
/// other; so does one from the other feed, the other way round. While A is
/// preferred, `SWITCH_TO_B_AFTER` forwards in a row from B make B preferred;
/// while B is preferred, `SWITCH_TO_A_AFTER` forwards in a row from B make A
/// preferred again; either switch only once the dwell has passed since the last.
pub open spec fn hysteresis(v: MergeVars, was_a: bool, now: u64) -> MergeVars {
    let dwell_ok = monus(now as int, v.last_switch_ns as int) >= v.min_dwell_ns;
    if v.prefer_a == was_a {
        let sp = at_most(v.streak_preferred + 1, u32::MAX as int) as u32;
        if !v.prefer_a && sp >= SWITCH_TO_A_AFTER && dwell_ok {
            MergeVars {
                prefer_a: true,
                streak_preferred: 0,
                streak_nonpreferred: 0,
                last_switch_ns: now,
                switches_in_window: at_most(v.switches_in_window + 1, u32::MAX as int) as u32,
                ..v
            }
        } else {
            MergeVars { streak_preferred: sp, streak_nonpreferred: 0, ..v }
        }
    } else {
        let sn = at_most(v.streak_nonpreferred + 1, u32::MAX as int) as u32;
        if v.prefer_a && sn >= SWITCH_TO_B_AFTER && dwell_ok {
            MergeVars {
                prefer_a: false,
                streak_preferred: 0,
                streak_nonpreferred: 0,
                last_switch_ns: now,
                switches_in_window: at_most(v.switches_in_window + 1, u32::MAX as int) as u32,
                ..v
            }
        } else {
            MergeVars { streak_nonpreferred: sn, streak_preferred: 0, ..v }
        }
    }
}

/// The metrics after the preference moved from `before` to `after`.
pub open spec fn switch_metrics(m: MetricsView, before: bool, after: bool) -> MetricsView {
    if before != after {
        MetricsView {
            merge_failovers: m.merge_failovers.wrapping_add(1),
            merge_preferred_is_a: if after {
                1i64
            } else {
                0i64
            },
            ..m
        }
    } else {
        m
    }
}

/// The metrics after `p` was forwarded at `now` under `label`: its time since
/// receipt is observed when it carries a timestamp that lies in the past.
pub open spec fn forward_metrics(m: MetricsView, p: Pkt, now: u64, label: u8) -> MetricsView {
    let m1 = if p.ts_nanos != 0 && now > p.ts_nanos {
        MetricsView { stage_rx_to_merge: m.stage_rx_to_merge.observed((now - p.ts_nanos) as u64), ..m }
    } else {
        m
    };
    MetricsView { merge_forward_packets: m1.merge_forward_packets.bumped(label, 1), ..m1 }
}

/// The metrics after the packets of `ps` were released from the ring and forwarded.
pub open spec fn drain_metrics(m: MetricsView, ps: Seq<Pkt>, from_recovery: bool, now: u64) -> MetricsView
    decreases ps.len(),
{
    if ps.len() == 0 {
        m
    } else {
        let m1 = drain_metrics(m, ps.drop_last(), from_recovery, now);
        let m2 = MetricsView { merge_out_of_order: m1.merge_out_of_order.wrapping_add(1), ..m1 };
        forward_metrics(m2, ps.last(), now, drained_label(ps.last().chan, from_recovery))
    }
}

/// One step of the arbiter: packet `pkt` arrives at time `now`, from replay
/// or from a feed.
pub open spec fn step(st: MergeState, pkt: Pkt, from_recovery: bool, now: u64) -> MergeState {
    let v = st.vars;
    let s = pkt.seq;
    match classify(v, s) {
        Verdict::Duplicate => MergeState {
            dropped: st.dropped.push(pkt),
            metrics: MetricsView {
                merge_duplicates: st.metrics.merge_duplicates.wrapping_add(1),
                ..st.metrics
            },
            ..st
        },
        Verdict::InOrder => {
            let after = v.next_seq.wrapping_add(1);
            let ps = drained(st.ring, after);
            let k = ps.len();
            let v1 = MergeVars {
                next_seq: advance(v.next_seq, k + 1),
                pending_count: monus(v.pending_count as int, k as int) as usize,
                forwarded_since_check: at_most(v.forwarded_since_check + k + 1, u64::MAX as int) as u64,
                recent_ooo: if from_recovery {
                    v.recent_ooo
                } else {
                    at_most(v.recent_ooo + k, u64::MAX as int) as u64
                },
                ..v
            };
            let v2 = if from_recovery {
                v1
            } else {
                hysteresis(v1, pkt.chan == CHAN_A, now)
            };
            let m1 = forward_metrics(st.metrics, pkt, now, direct_label(pkt.chan, from_recovery));
            let m2 = drain_metrics(m1, ps, from_recovery, now);
            MergeState {
                vars: v2,
                ring: ring_after_drain(st.ring, after),
                out: st.out + seq![stamp(pkt, now)] + ps.map_values(|p: Pkt| stamp(p, now)),
                gaps: st.gaps,
                dropped: st.dropped,
                metrics: switch_metrics(m2, v.prefer_a, v2.prefer_a),
            }
        },
        Verdict::Early => {
            if stores(v, st.ring, s) {
                MergeState {
                    vars: MergeVars { pending_count: (v.pending_count + 1) as usize, ..v },
                    ring: st.ring.update(slot_of(s, st.ring.len() as int), Some((s, pkt))),
                    dropped: match st.ring[slot_of(s, st.ring.len() as int)] {
                        Some(stale) => st.dropped.push(stale.1),
                        None => st.dropped,
                    },
                    metrics: MetricsView {
                        merge_out_of_order: st.metrics.merge_out_of_order.wrapping_add(1),
                        ..st.metrics
                    },
                    ..st
                }
            } else {
                MergeState {
                    dropped: st.dropped.push(pkt),
                    metrics: MetricsView {
                        merge_duplicates: st.metrics.merge_duplicates.wrapping_add(1),
                        ..st.metrics
                    },
                    ..st
                }
            }
        },
        Verdict::Gap => MergeState {
            vars: MergeVars { recent_gaps: at_most(v.recent_gaps + 1, u64::MAX as int) as u64, ..v },
            gaps: st.gaps.push(Gap { from: v.next_seq, to: (s - 1) as u64 }),
            dropped: st.dropped.push(pkt),
            metrics: MetricsView {
                merge_gaps: st.metrics.merge_gaps.wrapping_add(1),
                merge_gaps_by_chan: st.metrics.merge_gaps_by_chan.bumped(
                    direct_label(pkt.chan, from_recovery),
                    1,
                ),
                ..st.metrics
            },
            ..st
        },
    }
}

/// The scalar state after an adaptive checkpoint.
///
/// Nothing changes unless adaptation is on and `CHECKPOINT_EVERY` packets
/// were forwarded since the last checkpoint. Then: after gaps the window grows
/// by a quarter (at least 1) up to its maximum; after a quiet period a window
/// above `MIN_ADAPTIVE_WINDOW` shrinks by an eighth, not below that bound;
/// after four or more switches the dwell doubles up to `MAX_DWELL_NS`; after
/// none a dwell above the configured one decays by a quarter, not below it.
/// The period's counters start again at zero.
pub open spec fn checkpointed(v: MergeVars) -> MergeVars {
    if v.adaptive && v.forwarded_since_check >= CHECKPOINT_EVERY {
        let w = v.reorder_window as int;
        let grow = if w / 4 > 1 {
            w / 4
        } else {
            1
        };
        let w1 = if v.recent_gaps > 0 && w < v.reorder_window_max {
            at_most(w + grow, v.reorder_window_max as int)
        } else {
            w
        };
        let w2 = if v.recent_ooo == 0 && v.recent_gaps == 0 && w1 > MIN_ADAPTIVE_WINDOW {
            let shrunk = w1 - w1 / 8;
            if shrunk > MIN_ADAPTIVE_WINDOW {
                shrunk
            } else {
                MIN_ADAPTIVE_WINDOW as int
            }
        } else {
            w1
        };
        let d = v.min_dwell_ns as int;
        let d1 = if v.switches_in_window >= 4 {
            at_most(2 * d, MAX_DWELL_NS as int)
        } else if v.switches_in_window == 0 && d > v.dwell_ns {
            let decayed = d - d / 4;
            if decayed > v.dwell_ns {
                decayed
            } else {
                v.dwell_ns as int
            }
        } else {
            d
        };
        MergeVars {
            reorder_window: w2 as u64,
            min_dwell_ns: d1 as u64,
            forwarded_since_check: 0,
            recent_gaps: 0,
            recent_ooo: 0,
            switches_in_window: 0,
            ..v
        }
    } else {
        v
    }
}

/// The scalar state a configuration starts from at time `now`.
pub open spec fn initial_vars(cfg: MergeConfig, now: u64) -> MergeVars {
    MergeVars {
        next_seq: cfg.next_seq,
        reorder_window: cfg.reorder_window,
        pending_count: 0,
        prefer_a: true,
        streak_preferred: 0,
        streak_nonpreferred: 0,
        last_switch_ns: now,
        min_dwell_ns: cfg.dwell_ns,
        forwarded_since_check: 0,
        recent_gaps: 0,
        recent_ooo: 0,
        switches_in_window: 0,
        idx_a: 0,
        idx_b: 0,
        max_pending: cfg.max_pending,
        dwell_ns: cfg.dwell_ns,
        adaptive: cfg.adaptive,
        reorder_window_max: cfg.reorder_window_max,
    }
}

/// The packets released by a drain carry consecutive sequence numbers that
/// start at `next`, and leave a well-formed ring.
pub proof fn lemma_drained_consecutive(ring: Ring, next: u64)
    requires
        ring_wf(ring),
    ensures
        ring_wf(ring_after_drain(ring, next)),
        ring_after_drain(ring, next).len() == ring.len(),
        forall|k: int|
            0 <= k < drained(ring, next).len() ==> (#[trigger] drained(ring, next)[k]).seq == advance(
                next,
                k as nat,
            ),
    decreases occupied(ring),
{
    if head_ready(ring, next) {
        let i = slot_of(next, ring.len() as int);
        let r2 = ring.update(i, None);
        let n2 = next.wrapping_add(1);
        lemma_occupied_clear(ring, i);
        assert(ring_wf(r2));
        lemma_drained_consecutive(r2, n2);
        let d = drained(ring, next);
        let d2 = drained(r2, n2);
        let first = ring[i].unwrap().1;
        assert(d == seq![first] + d2);
        assert(first.seq == next);
        assert forall|k: int| 0 <= k < d.len() implies (#[trigger] d[k]).seq == advance(next, k as nat) by {
            if k == 0 {
                assert(d[0] == first);
            } else {
                assert(d[k] == d2[k - 1]);
                lemma_advance_shift(next, (k - 1) as nat);
            }
        }
    }
}

/// The packets a step appends to the forwarded stream.
pub open spec fn step_emits(st: MergeState, pkt: Pkt, now: u64) -> Seq<Pkt> {
    if pkt.seq == st.vars.next_seq {
        seq![stamp(pkt, now)] + drained(st.ring, st.vars.next_seq.wrapping_add(1)).map_values(
            |p: Pkt| stamp(p, now),
        )
    } else {
        Seq::empty()
    }
}

/// A step forwards packets numbered consecutively from the expected number
/// and expects their successor afterwards; it forwards nothing unless the
/// packet that arrived carries the expected number.
pub proof fn lemma_step_in_order(st: MergeState, pkt: Pkt, from_recovery: bool, now: u64)
    requires
        ring_wf(st.ring),
    ensures
        ({
            let st2 = step(st, pkt, from_recovery, now);
            let e = step_emits(st, pkt, now);
            &&& ring_wf(st2.ring)
            &&& st2.ring.len() == st.ring.len()
            &&& st2.out == st.out + e
            &&& st2.vars.next_seq == advance(st.vars.next_seq, e.len())
            &&& forall|k: int| 0 <= k < e.len() ==> (#[trigger] e[k]).seq == advance(st.vars.next_seq, k as nat)
            &&& e.len() > 0 <==> pkt.seq == st.vars.next_seq
        }),
{
    let st2 = step(st, pkt, from_recovery, now);
    let e = step_emits(st, pkt, now);
    let v = st.vars;
    match classify(v, pkt.seq) {
        Verdict::InOrder => {
            let after = v.next_seq.wrapping_add(1);
            lemma_drained_consecutive(st.ring, after);
            let ps = drained(st.ring, after);
            assert(st2.out =~= st.out + e);
            assert forall|k: int| 0 <= k < e.len() implies (#[trigger] e[k]).seq == advance(
                v.next_seq,
                k as nat,
            ) by {
                if k > 0 {
                    assert(e[k] == stamp(ps[k - 1], now));
                    assert(ps[k - 1].seq == advance(after, (k - 1) as nat));
                    lemma_advance_shift(v.next_seq, (k - 1) as nat);
                }
            }
        },
        Verdict::Early => {
            assert(st2.out =~= st.out + e);
            if stores(v, st.ring, pkt.seq) {
                let i = slot_of(pkt.seq, st.ring.len() as int);
                assert forall|j: int| 0 <= j < st2.ring.len() implies (#[trigger] st2.ring[j] matches Some(
                    x,
                ) ==> x.1.seq == x.0) by {
                    if j != i {
                        assert(st2.ring[j] == st.ring[j]);
                    }
                }
            }
        },
        _ => {
            assert(st2.out =~= st.out + e);
        },
    }
}

/// The state after the packets of `input` arrived one after the other, each
/// with its origin (replay or feed) and its time of arrival.
pub open spec fn run(st: MergeState, input: Seq<(Pkt, bool, u64)>) -> MergeState
    decreases input.len(),
{
    if input.len() == 0 {
        st
    } else {
        let e = input.last();
        step(run(st, input.drop_last()), e.0, e.1, e.2)
    }
}

/// Whatever arrives in whatever order, the forwarded stream is consecutive:
/// the `k`-th packet forwarded carries the `k`-th sequence number after the
/// one the arbiter started at. So neighbours differ by exactly one (up to the
/// wrap-around of 64-bit numbers), none is repeated and none is skipped.
pub proof fn lemma_output_consecutive(st: MergeState, input: Seq<(Pkt, bool, u64)>)
    requires
        ring_wf(st.ring),
        st.out.len() == 0,
    ensures
        ring_wf(run(st, input).ring),
        run(st, input).vars.next_seq == advance(st.vars.next_seq, run(st, input).out.len()),
        forall|k: int|
            0 <= k < run(st, input).out.len() ==> (#[trigger] run(st, input).out[k]).seq == advance(
                st.vars.next_seq,
                k as nat,
            ),
        forall|k: int|
            0 <= k && k + 1 < run(st, input).out.len() ==> (#[trigger] run(st, input).out[k + 1]).seq == run(
                st,
                input,
            ).out[k].seq.wrapping_add(1),
    decreases input.len(),
{
    let end = run(st, input);
    if input.len() > 0 {
        let e = input.last();
        let mid = run(st, input.drop_last());
        lemma_output_consecutive(st, input.drop_last());
        lemma_step_in_order(mid, e.0, e.1, e.2);
        let emitted = step_emits(mid, e.0, e.2);
        let base = mid.out.len();
        assert(end.out == mid.out + emitted);
        lemma_advance_sum(st.vars.next_seq, base, emitted.len());
        assert forall|k: int| 0 <= k < end.out.len() implies (#[trigger] end.out[k]).seq == advance(
            st.vars.next_seq,
            k as nat,
        ) by {
            if k < base {
                assert(end.out[k] == mid.out[k]);
            } else {
                assert(end.out[k] == emitted[k - base]);
                lemma_advance_sum(st.vars.next_seq, base, (k - base) as nat);
            }
        }
    }
    assert forall|k: int| 0 <= k && k + 1 < end.out.len() implies (#[trigger] end.out[k + 1]).seq
        == end.out[k].seq.wrapping_add(1) by {
        assert(end.out[k].seq == advance(st.vars.next_seq, k as nat));
        assert(end.out[k + 1].seq == advance(st.vars.next_seq, (k + 1) as nat));
    }
}

/// The number of packets the arbiter has taken and still accounts for:
/// those it forwarded, those it holds in the ring, and those it handed back.
pub open spec fn in_hand(st: MergeState) -> nat {
    st.out.len() + occupied(st.ring) + st.dropped.len()
}

/// A drain moves packets from the ring to the output and loses none.
pub proof fn lemma_drain_keeps_packets(ring: Ring, next: u64)
    ensures
        drained(ring, next).len() + occupied(ring_after_drain(ring, next)) == occupied(ring),
    decreases occupied(ring),
{
    if head_ready(ring, next) {
        let i = slot_of(next, ring.len() as int);
        lemma_occupied_clear(ring, i);
        lemma_drain_keeps_packets(ring.update(i, None), next.wrapping_add(1));
    }
}

/// Storing a packet in a free slot adds one occupied slot; storing it in
/// place of another leaves their number as it was.
pub proof fn lemma_occupied_fill(ring: Ring, i: int, e: (u64, Pkt))
    requires
        0 <= i < ring.len(),
    ensures
        occupied(ring.update(i, Some(e))) == occupied(ring) + if ring[i] is Some {
            0nat
        } else {
            1nat
        },
{
    let r2 = ring.update(i, Some(e));
    lemma_occupied_clear(r2, i);
    assert(r2.update(i, None) =~= ring.update(i, None));
    if ring[i] is Some {
        lemma_occupied_clear(ring, i);
    } else {
        assert(ring.update(i, None) =~= ring);
    }
}

/// No packet is lost in a step: the packet that arrives is afterwards
/// forwarded, held in the ring or handed back, and so is every packet that
/// was before.
pub proof fn lemma_step_keeps_packets(st: MergeState, pkt: Pkt, from_recovery: bool, now: u64)
    requires
        ring_wf(st.ring),
    ensures
        in_hand(step(st, pkt, from_recovery, now)) == in_hand(st) + 1,
{
    let v = st.vars;
    match classify(v, pkt.seq) {
        Verdict::InOrder => {
            lemma_drain_keeps_packets(st.ring, v.next_seq.wrapping_add(1));
        },
        Verdict::Early => {
            if stores(v, st.ring, pkt.seq) {
                lemma_occupied_fill(st.ring, slot_of(pkt.seq, st.ring.len() as int), (pkt.seq, pkt));
            }
        },
        _ => {},
    }
}

/// No packet is lost: of the packets that arrived, each is forwarded, held
/// in the ring or handed back. So once the ring is empty, every buffer that
/// came in has gone on to the next stage or is free to go back to the pool.
pub proof fn lemma_run_keeps_packets(st: MergeState, input: Seq<(Pkt, bool, u64)>)
    requires
        ring_wf(st.ring),
    ensures
        ring_wf(run(st, input).ring),
        in_hand(run(st, input)) == in_hand(st) + input.len(),
    decreases input.len(),
{
    if input.len() > 0 {
        let e = input.last();
        let before = run(st, input.drop_last());
        lemma_run_keeps_packets(st, input.drop_last());
        lemma_step_in_order(before, e.0, e.1, e.2);
        lemma_step_keeps_packets(before, e.0, e.1, e.2);
    }
}

/// The arbiter together with the queues it reads in a round.
pub struct RoundState {
    pub st: MergeState,
    /// What the workers of feed A have queued, oldest first.
    pub qa: Seq<Seq<Pkt>>,
    /// What the workers of feed B have queued, oldest first.
    pub qb: Seq<Seq<Pkt>>,
    /// What replay has queued, oldest first.
    pub qrec: Seq<Pkt>,
}

/// The first part of a round: up to `budget` replayed packets are taken, in order.
pub open spec fn recovery_phase(rs: RoundState, budget: nat, now: u64) -> RoundState
    decreases budget,
{
    if budget == 0 || rs.qrec.len() == 0 {
        rs
    } else {
        recovery_phase(
            RoundState { st: step(rs.st, rs.qrec[0], true, now), qrec: rs.qrec.skip(1), ..rs },
            (budget - 1) as nat,
            now,
        )
    }
}

/// One poll of a round. The first poll (`first`) goes to the preferred feed,
/// the second to the other. The feed's workers are visited round-robin: the
/// worker at the feed's position is asked for one packet and the position
/// moves on, whether or not a packet was there.
pub open spec fn poll(rs: RoundState, first: bool, now: u64) -> RoundState {
    let v = rs.st.vars;
    if first == v.prefer_a {
        let i = (v.idx_a as int) % (rs.qa.len() as int);
        let st1 = MergeState { vars: MergeVars { idx_a: v.idx_a.wrapping_add(1), ..v }, ..rs.st };
        if rs.qa[i].len() > 0 {
            RoundState { st: step(st1, rs.qa[i][0], false, now), qa: rs.qa.update(i, rs.qa[i].skip(1)), ..rs }
        } else {
            RoundState { st: st1, ..rs }
        }
    } else {
        let i = (v.idx_b as int) % (rs.qb.len() as int);
        let st1 = MergeState { vars: MergeVars { idx_b: v.idx_b.wrapping_add(1), ..v }, ..rs.st };
        if rs.qb[i].len() > 0 {
            RoundState { st: step(st1, rs.qb[i][0], false, now), qb: rs.qb.update(i, rs.qb[i].skip(1)), ..rs }
        } else {
            RoundState { st: st1, ..rs }
        }
    }
}

/// One round: replayed packets first, then one poll of the preferred feed
/// and one of the other, then the adaptive checkpoint.
pub open spec fn round(rs: RoundState, now: u64) -> RoundState {
    let r = poll(poll(recovery_phase(rs, RECOVERY_BATCH as nat, now), true, now), false, now);
    RoundState { st: MergeState { vars: checkpointed(r.st.vars), ..r.st }, ..r }
}

/// The number of packets that wait in the queues `qs`.
pub open spec fn queued(qs: Seq<Seq<Pkt>>) -> nat
    decreases qs.len(),
{
    if qs.len() == 0 {
        0
    } else {
        queued(qs.drop_last()) + qs.last().len()
    }
}

/// Taking the oldest packet of one queue leaves one packet fewer waiting.
pub proof fn lemma_queued_take(qs: Seq<Seq<Pkt>>, i: int)
    requires
        0 <= i < qs.len(),
        qs[i].len() > 0,
    ensures
        queued(qs.update(i, qs[i].skip(1))) + 1 == queued(qs),
    decreases qs.len(),
{
    let q2 = qs.update(i, qs[i].skip(1));
    if i == qs.len() - 1 {
        assert(q2.drop_last() =~= qs.drop_last());
    } else {
        lemma_queued_take(qs.drop_last(), i);
        assert(q2.drop_last() =~= qs.drop_last().update(i, qs[i].skip(1)));
    }
}

/// The number of packets in the stage: those that wait in its queues and
/// those the arbiter has taken and accounts for.
pub open spec fn in_stage(rs: RoundState) -> nat {
    queued(rs.qa) + queued(rs.qb) + rs.qrec.len() + in_hand(rs.st)
}

/// Taking replayed packets loses none.
pub proof fn lemma_recovery_keeps_packets(rs: RoundState, budget: nat, now: u64)
    requires
        ring_wf(rs.st.ring),
    ensures
        ring_wf(recovery_phase(rs, budget, now).st.ring),
        in_stage(recovery_phase(rs, budget, now)) == in_stage(rs),
        recovery_phase(rs, budget, now).qa == rs.qa,
        recovery_phase(rs, budget, now).qb == rs.qb,
    decreases budget,
{
    if budget != 0 && rs.qrec.len() != 0 {
        let next = RoundState { st: step(rs.st, rs.qrec[0], true, now), qrec: rs.qrec.skip(1), ..rs };
        lemma_step_in_order(rs.st, rs.qrec[0], true, now);
        lemma_step_keeps_packets(rs.st, rs.qrec[0], true, now);
        lemma_recovery_keeps_packets(next, (budget - 1) as nat, now);
    }
}

/// A poll loses no packet.
pub proof fn lemma_poll_keeps_packets(rs: RoundState, first: bool, now: u64)
    requires
        ring_wf(rs.st.ring),
        rs.qa.len() > 0,
        rs.qb.len() > 0,
    ensures
        in_stage(poll(rs, first, now)) == in_stage(rs),
{
    let v = rs.st.vars;
    if first == v.prefer_a {
        let i = (v.idx_a as int) % (rs.qa.len() as int);
        let st1 = MergeState { vars: MergeVars { idx_a: v.idx_a.wrapping_add(1), ..v }, ..rs.st };
        if rs.qa[i].len() > 0 {
            lemma_step_keeps_packets(st1, rs.qa[i][0], false, now);
            lemma_queued_take(rs.qa, i);
        }
    } else {
        let i = (v.idx_b as int) % (rs.qb.len() as int);
        let st1 = MergeState { vars: MergeVars { idx_b: v.idx_b.wrapping_add(1), ..v }, ..rs.st };
        if rs.qb[i].len() > 0 {
            lemma_step_keeps_packets(st1, rs.qb[i][0], false, now);
            lemma_queued_take(rs.qb, i);
        }
    }
}

/// No packet is lost in a round: every packet that was waiting or in the
/// arbiter's hands before the round is waiting, forwarded, held in the ring
/// or handed back after it. So with every handed-back buffer returned to the
/// pool, the buffers outside the pool are those of the packets in flight.
pub proof fn lemma_round_keeps_packets(rs: RoundState, now: u64)
    requires
        ring_wf(rs.st.ring),
        rs.qa.len() > 0,
        rs.qb.len() > 0,
    ensures
        in_stage(round(rs, now)) == in_stage(rs),
{
    let r0 = recovery_phase(rs, RECOVERY_BATCH as nat, now);
    lemma_recovery_keeps_packets(rs, RECOVERY_BATCH as nat, now);
    lemma_poll_keeps_packets(r0, true, now);
    lemma_poll_grows(r0, true, now);
    lemma_poll_keeps_packets(poll(r0, true, now), false, now);
}

/// What each queue of a list holds.
pub open spec fn queue_views(qs: Seq<SpscQueue<Pkt>>) -> Seq<Seq<Pkt>> {
    Seq::new(qs.len(), |i: int| qs[i]@)
}

/// Every queue of a list is well-formed.
pub open spec fn queues_wf(qs: Seq<SpscQueue<Pkt>>) -> bool {
    forall|i: int| 0 <= i < qs.len() ==> (#[trigger] qs[i]).wf()
}

/// A poll never shortens the forwarded stream and keeps the ring well-formed.
pub proof fn lemma_poll_grows(rs: RoundState, first: bool, now: u64)
    requires
        ring_wf(rs.st.ring),
        rs.qa.len() > 0,
        rs.qb.len() > 0,
    ensures
        ring_wf(poll(rs, first, now).st.ring),
        poll(rs, first, now).st.out.len() >= rs.st.out.len(),
        poll(rs, first, now).qa.len() == rs.qa.len(),
        poll(rs, first, now).qb.len() == rs.qb.len(),
{
    let v = rs.st.vars;
    if first == v.prefer_a {
        let i = (v.idx_a as int) % (rs.qa.len() as int);
        let st1 = MergeState { vars: MergeVars { idx_a: v.idx_a.wrapping_add(1), ..v }, ..rs.st };
        if rs.qa[i].len() > 0 {
            lemma_step_in_order(st1, rs.qa[i][0], false, now);
        }
    } else {
        let i = (v.idx_b as int) % (rs.qb.len() as int);
        let st1 = MergeState { vars: MergeVars { idx_b: v.idx_b.wrapping_add(1), ..v }, ..rs.st };
        if rs.qb[i].len() > 0 {
            lemma_step_in_order(st1, rs.qb[i][0], false, now);
        }
    }
}

/// The arbiter.
pub struct Merger {
    pub vars: MergeVars,
    pub ring: Vec<Option<(u64, Pkt)>>,
}

/// Stamps `pkt` with `now`, observes its time since receipt and appends it to `out`.
pub fn forward(out: &mut Vec<Pkt>, pkt: Pkt, now: u64, label: u8, m: &mut Metrics)
    requires
        old(m).wf(),
    ensures
        final(m).wf(),
        final(out)@ == old(out)@.push(stamp(pkt, now)),
        final(m)@ == forward_metrics(old(m)@, pkt, now, label),
{
    let mut pkt = pkt;
    if pkt.ts_nanos != 0 && now > pkt.ts_nanos {
        observe_stage_rx_to_merge_ns(m, now - pkt.ts_nanos);
    }
    pkt.merge_emit_ns = now;
    out.push(pkt);
    inc_merge_forward_chan(m, label);
}

impl Merger {
    /// The ring has a slot and every buffered packet is stored under its own number.
    pub open spec fn wf(self) -> bool {
        ring_wf(self.ring@)
    }

    /// The arbiter together with what it has emitted, reported and handed back.
    pub open spec fn state(self, out: Seq<Pkt>, gaps: Seq<Gap>, dropped: Seq<Pkt>, m: MetricsView) -> MergeState {
        MergeState { vars: self.vars, ring: self.ring@, out, gaps, dropped, metrics: m }
    }

    /// Creates an arbiter that expects `cfg.next_seq`, prefers feed A and has
    /// an empty ring of `cfg.reorder_window + 1` slots. `now` is the time the
    /// dwell is counted from.
    pub fn new(cfg: MergeConfig, now: u64) -> (mg: Self)
        requires
            cfg.reorder_window < usize::MAX,
        ensures
            mg.wf(),
            mg.vars == initial_vars(cfg, now),
            mg.ring@ == Seq::new((cfg.reorder_window + 1) as nat, |i: int| None::<(u64, Pkt)>),
    {
        let cap: usize = (cfg.reorder_window as usize) + 1;
        let mut ring: Vec<Option<(u64, Pkt)>> = Vec::new();
        let mut i: usize = 0;
        while i < cap
            invariant
                i <= cap,
                ring@ == Seq::new(i as nat, |i: int| None::<(u64, Pkt)>),
            decreases cap - i,
        {
            ring.push(None);
            i += 1;
            assert(ring@ =~= Seq::new(i as nat, |i: int| None::<(u64, Pkt)>));
        }
        Merger {
            vars: MergeVars {
                next_seq: cfg.next_seq,
                reorder_window: cfg.reorder_window,
                pending_count: 0,
                prefer_a: true,
                streak_preferred: 0,
                streak_nonpreferred: 0,
                last_switch_ns: now,
                min_dwell_ns: cfg.dwell_ns,
                forwarded_since_check: 0,
                recent_gaps: 0,
                recent_ooo: 0,
                switches_in_window: 0,
                idx_a: 0,
                idx_b: 0,
                max_pending: cfg.max_pending,
                dwell_ns: cfg.dwell_ns,
                adaptive: cfg.adaptive,
                reorder_window_max: cfg.reorder_window_max,
            },
            ring,
        }
    }

    /// Index of the ring slot of `seq`.
    fn slot(&self, seq: u64) -> (i: usize)
        requires
            self.ring@.len() > 0,
        ensures
            i == slot_of(seq, self.ring@.len() as int),
            i < self.ring@.len(),
    {
        (seq % (self.ring.len() as u64)) as usize
    }

    /// Releases the buffered successors of the packet just forwarded.
    fn drain(&mut self, from_recovery: bool, now: u64, out: &mut Vec<Pkt>, m: &mut Metrics)
        requires
            old(self).wf(),
            old(m).wf(),
        ensures
            final(self).wf(),
            final(m).wf(),
            final(self).ring@ == ring_after_drain(old(self).ring@, old(self).vars.next_seq),
            final(out)@ == old(out)@ + drained(old(self).ring@, old(self).vars.next_seq).map_values(
                |p: Pkt| stamp(p, now),
            ),
            final(m)@ == drain_metrics(
                old(m)@,
                drained(old(self).ring@, old(self).vars.next_seq),
                from_recovery,
                now,
            ),
            final(self).vars == ({
                let v = old(self).vars;
                let k = drained(old(self).ring@, v.next_seq).len();
                MergeVars {
                    next_seq: advance(v.next_seq, k),
                    pending_count: monus(v.pending_count as int, k as int) as usize,
                    forwarded_since_check: at_most(v.forwarded_since_check + k, u64::MAX as int) as u64,
                    recent_ooo: if from_recovery {
                        v.recent_ooo
                    } else {
                        at_most(v.recent_ooo + k, u64::MAX as int) as u64
                    },
                    ..v
                }
            }),
    {
        let ghost ring0 = self.ring@;
        let ghost v0 = self.vars;
        let ghost out0 = out@;
        let ghost m0 = m@;
        let ghost done: Seq<Pkt> = Seq::empty();
        proof {
            assert(out@ =~= out0 + done.map_values(|p: Pkt| stamp(p, now)));
        }
        loop
            invariant
                self.wf(),
                m.wf(),
                self.ring@.len() == ring0.len(),
                drained(ring0, v0.next_seq) == done + drained(self.ring@, self.vars.next_seq),
                ring_after_drain(ring0, v0.next_seq) == ring_after_drain(self.ring@, self.vars.next_seq),
                out@ == out0 + done.map_values(|p: Pkt| stamp(p, now)),
                m@ == drain_metrics(m0, done, from_recovery, now),
                self.vars == (MergeVars {
                    next_seq: advance(v0.next_seq, done.len()),
                    pending_count: monus(v0.pending_count as int, done.len() as int) as usize,
                    forwarded_since_check: at_most(
                        v0.forwarded_since_check + done.len(),
                        u64::MAX as int,
                    ) as u64,
                    recent_ooo: if from_recovery {
                        v0.recent_ooo
                    } else {
                        at_most(v0.recent_ooo + done.len(), u64::MAX as int) as u64
                    },
                    ..v0
                }),
            ensures
                !head_ready(self.ring@, self.vars.next_seq),
            decreases occupied(self.ring@),
        {
            let idx = self.slot(self.vars.next_seq);
            let ready = match &self.ring[idx] {
                Some(e) => e.0 == self.vars.next_seq,
                None => false,
            };
            if !ready {
                break;
            }
            let ghost ring1 = self.ring@;
            let ghost next1 = self.vars.next_seq;
            let mut taken: Option<(u64, Pkt)> = None;
            core::mem::swap(&mut taken, &mut self.ring[idx]);
            let node = match taken {
                Some(e) => e.1,
                None => {
                    break;
                },
            };
            proof {
                lemma_occupied_clear(ring1, idx as int);
                assert(self.ring@ =~= ring1.update(idx as int, None));
                assert(drained(ring1, next1) == seq![node] + drained(self.ring@, next1.wrapping_add(1)));
                assert(node.seq == next1);
            }
            self.vars.pending_count = self.vars.pending_count.saturating_sub(1);
            inc_merge_ooo(m);
            if !from_recovery {
                self.vars.recent_ooo = self.vars.recent_ooo.saturating_add(1);
            }
            let c = if node.chan == CHAN_A {
                CHAN_A
            } else if node.chan == CHAN_B || !from_recovery {
                CHAN_B
            } else {
                CHAN_R
            };
            forward(out, node, now, c, m);
            self.vars.next_seq = self.vars.next_seq.wrapping_add(1);
            self.vars.forwarded_since_check = self.vars.forwarded_since_check.saturating_add(1);
            proof {
                let done2 = done.push(node);
                assert(done2.drop_last() =~= done);
                assert(done + (seq![node] + drained(self.ring@, self.vars.next_seq)) =~= done2 + drained(
                    self.ring@,
                    self.vars.next_seq,
                ));
                assert(out@ =~= out0 + done2.map_values(|p: Pkt| stamp(p, now)));
                done = done2;
            }
        }
        proof {
            assert(drained(self.ring@, self.vars.next_seq) =~= Seq::<Pkt>::empty());
            assert(done + Seq::<Pkt>::empty() =~= done);
        }
    }

    /// Updates the channel preference after a forward from a feed.
    fn observe_source(&mut self, was_a: bool, now: u64, m: &mut Metrics)
        ensures
            final(self).ring == old(self).ring,
            final(self).vars == hysteresis(old(self).vars, was_a, now),
            final(m)@ == switch_metrics(old(m)@, old(self).vars.prefer_a, final(self).vars.prefer_a),
            final(m).wf() == old(m).wf(),
    {
        let dwell_ok = now.saturating_sub(self.vars.last_switch_ns) >= self.vars.min_dwell_ns;
        if self.vars.prefer_a == was_a {
            self.vars.streak_preferred = self.vars.streak_preferred.saturating_add(1);
            self.vars.streak_nonpreferred = 0;
            if !self.vars.prefer_a && self.vars.streak_preferred >= SWITCH_TO_A_AFTER && dwell_ok {
                self.vars.prefer_a = true;
                self.vars.streak_preferred = 0;
                inc_merge_failover(m);
                set_merge_preferred_is_a(m, true);
                self.vars.last_switch_ns = now;
                self.vars.switches_in_window = self.vars.switches_in_window.saturating_add(1);
            }
        } else {
            self.vars.streak_nonpreferred = self.vars.streak_nonpreferred.saturating_add(1);
            self.vars.streak_preferred = 0;
            if self.vars.prefer_a && self.vars.streak_nonpreferred >= SWITCH_TO_B_AFTER && dwell_ok {
                self.vars.prefer_a = false;
                self.vars.streak_nonpreferred = 0;
                inc_merge_failover(m);
                set_merge_preferred_is_a(m, false);
                self.vars.last_switch_ns = now;
                self.vars.switches_in_window = self.vars.switches_in_window.saturating_add(1);
            }
        }
    }

    /// Takes one packet, from replay or from a feed, at time `now`: performs
    /// the step of the state machine, appending what is forwarded to `out`,
    /// a replay request, if one is due, to `gaps`, and a packet that is not
    /// kept to `dropped`, for its buffer to go back to the pool.
    pub fn on_packet(
        &mut self,
        pkt: Pkt,
        from_recovery: bool,
        now: u64,
        out: &mut Vec<Pkt>,
        gaps: &mut Vec<Gap>,
        dropped: &mut Vec<Pkt>,
        m: &mut Metrics,
    )
        requires
            old(self).wf(),
            old(m).wf(),
        ensures
            final(self).wf(),
            final(m).wf(),
            final(self).ring@.len() == old(self).ring@.len(),
            final(self).state(final(out)@, final(gaps)@, final(dropped)@, final(m)@) == step(
                old(self).state(old(out)@, old(gaps)@, old(dropped)@, old(m)@),
                pkt,
                from_recovery,
                now,
            ),
    {
        let ghost st0 = self.state(out@, gaps@, dropped@, m@);
        proof {
            lemma_step_in_order(st0, pkt, from_recovery, now);
        }
        let s = pkt.seq;
        let chan = pkt.chan;
        let label = if from_recovery {
            CHAN_R
        } else if chan == CHAN_A {
            CHAN_A
        } else {
            CHAN_B
        };
        if s < self.vars.next_seq {
            inc_merge_dup(m);
            dropped.push(pkt);
        } else if s == self.vars.next_seq {
            forward(out, pkt, now, label, m);
            self.vars.next_seq = self.vars.next_seq.wrapping_add(1);
            self.vars.forwarded_since_check = self.vars.forwarded_since_check.saturating_add(1);
            let ghost k = drained(self.ring@, self.vars.next_seq).len();
            let ghost before = self.vars.prefer_a;
            self.drain(from_recovery, now, out, m);
            if !from_recovery {
                self.observe_source(chan == CHAN_A, now, m);
            }
            proof {
                let st1 = step(st0, pkt, from_recovery, now);
                lemma_advance_shift(st0.vars.next_seq, k);
                assert(out@ =~= st1.out);
                assert(self.vars == st1.vars);
                assert(m@ == st1.metrics);
            }
        } else {
            let distance = s - self.vars.next_seq;
            if distance <= self.vars.reorder_window && self.vars.pending_count < self.vars.max_pending {
                let idx = self.slot(s);
                let free = match &self.ring[idx] {
                    Some(e) => e.0 != s && e.0 < self.vars.next_seq,
                    None => true,
                };
                if free {
                    let mut entry: Option<(u64, Pkt)> = Some((s, pkt));
                    core::mem::swap(&mut entry, &mut self.ring[idx]);
                    match entry {
                        Some(stale) => {
                            dropped.push(stale.1);
                        },
                        None => {},
                    }
                    assert(self.ring@ =~= old(self).ring@.update(idx as int, Some((s, pkt))));
                    self.vars.pending_count = self.vars.pending_count + 1;
                    inc_merge_ooo(m);
                } else {
                    inc_merge_dup(m);
                    dropped.push(pkt);
                }
            } else {
                inc_merge_gap(m);
                self.vars.recent_gaps = self.vars.recent_gaps.saturating_add(1);
                inc_merge_gap_chan(m, label);
                gaps.push(Gap { from: self.vars.next_seq, to: s - 1 });
                dropped.push(pkt);
            }
        }
    }

    /// The arbiter together with its queues and with what it has emitted and reported.
    pub open spec fn round_state(
        self,
        q_a: Seq<SpscQueue<Pkt>>,
        q_b: Seq<SpscQueue<Pkt>>,
        q_rec: SpscQueue<Pkt>,
        out: Seq<Pkt>,
        gaps: Seq<Gap>,
        dropped: Seq<Pkt>,
        m: MetricsView,
    ) -> RoundState {
        RoundState {
            st: self.state(out, gaps, dropped, m),
            qa: queue_views(q_a),
            qb: queue_views(q_b),
            qrec: q_rec@,
        }
    }

    /// Asks one worker of one feed for a packet and takes it.
    fn poll_feed(
        &mut self,
        first: bool,
        q_a: &mut Vec<SpscQueue<Pkt>>,
        q_b: &mut Vec<SpscQueue<Pkt>>,
        now: u64,
        out: &mut Vec<Pkt>,
        gaps: &mut Vec<Gap>,
        dropped: &mut Vec<Pkt>,
        m: &mut Metrics,
        Ghost(q_rec): Ghost<SpscQueue<Pkt>>,
    )
        requires
            old(self).wf(),
            old(m).wf(),
            old(q_a)@.len() > 0,
            old(q_b)@.len() > 0,
            queues_wf(old(q_a)@),
            queues_wf(old(q_b)@),
        ensures
            final(self).wf(),
            final(m).wf(),
            final(q_a)@.len() == old(q_a)@.len(),
            final(q_b)@.len() == old(q_b)@.len(),
            queues_wf(final(q_a)@),
            queues_wf(final(q_b)@),
            final(self).round_state(final(q_a)@, final(q_b)@, q_rec, final(out)@, final(gaps)@, final(dropped)@, final(m)@)
                == poll(
                old(self).round_state(old(q_a)@, old(q_b)@, q_rec, old(out)@, old(gaps)@, old(dropped)@, old(m)@),
                first,
                now,
            ),
    {
        let ghost rs0 = self.round_state(q_a@, q_b@, q_rec, out@, gaps@, dropped@, m@);
        if first == self.vars.prefer_a {
            let i = self.vars.idx_a % q_a.len();
            self.vars.idx_a = self.vars.idx_a.wrapping_add(1);
            let got = q_a[i].pop();
            proof {
                assert(queue_views(q_a@) =~= if rs0.qa[i as int].len() > 0 {
                    rs0.qa.update(i as int, rs0.qa[i as int].skip(1))
                } else {
                    rs0.qa
                });
            }
            match got {
                Some(pkt) => {
                    self.on_packet(pkt, false, now, out, gaps, dropped, m);
                },
                None => {},
            }
        } else {
            let i = self.vars.idx_b % q_b.len();
            self.vars.idx_b = self.vars.idx_b.wrapping_add(1);
            let got = q_b[i].pop();
            proof {
                assert(queue_views(q_b@) =~= if rs0.qb[i as int].len() > 0 {
                    rs0.qb.update(i as int, rs0.qb[i as int].skip(1))
                } else {
                    rs0.qb
                });
            }
            match got {
                Some(pkt) => {
                    self.on_packet(pkt, false, now, out, gaps, dropped, m);
                },
                None => {},
            }
        }
    }

    /// Performs one round at time `now` on the queues of the two feeds and of
    /// replay. Forwarded packets are appended to `out`, replay requests to
    /// `gaps`, packets that are not kept to `dropped`. Returns whether
    /// anything was forwarded.
    pub fn poll_round(
        &mut self,
        q_a: &mut Vec<SpscQueue<Pkt>>,
        q_b: &mut Vec<SpscQueue<Pkt>>,
        q_rec: &mut SpscQueue<Pkt>,
        now: u64,
        out: &mut Vec<Pkt>,
        gaps: &mut Vec<Gap>,
        dropped: &mut Vec<Pkt>,
        m: &mut Metrics,
    ) -> (moved: bool)
        requires
            old(self).wf(),
            old(m).wf(),
            old(q_a)@.len() > 0,
            old(q_b)@.len() > 0,
            queues_wf(old(q_a)@),
            queues_wf(old(q_b)@),
            old(q_rec).wf(),
        ensures
            final(self).wf(),
            final(m).wf(),
            final(q_a)@.len() == old(q_a)@.len(),
            final(q_b)@.len() == old(q_b)@.len(),
            queues_wf(final(q_a)@),
            queues_wf(final(q_b)@),
            final(q_rec).wf(),
            final(self).round_state(
                final(q_a)@,
                final(q_b)@,
                *final(q_rec),
                final(out)@,
                final(gaps)@,
                final(dropped)@,
                final(m)@,
            ) == round(
                old(self).round_state(old(q_a)@, old(q_b)@, *old(q_rec), old(out)@, old(gaps)@, old(dropped)@, old(m)@),
                now,
            ),
            moved == (final(out)@.len() > old(out)@.len()),
    {
        let ghost rs0 = self.round_state(q_a@, q_b@, *q_rec, out@, gaps@, dropped@, m@);
        let start = out.len();
        let mut taken: usize = 0;
        while taken < RECOVERY_BATCH
            invariant
                self.wf(),
                m.wf(),
                q_rec.wf(),
                q_a@ == old(q_a)@,
                q_b@ == old(q_b)@,
                taken <= RECOVERY_BATCH,
                out@.len() >= start,
                recovery_phase(rs0, RECOVERY_BATCH as nat, now) == recovery_phase(
                    self.round_state(q_a@, q_b@, *q_rec, out@, gaps@, dropped@, m@),
                    (RECOVERY_BATCH - taken) as nat,
                    now,
                ),
            ensures
                recovery_phase(rs0, RECOVERY_BATCH as nat, now) == self.round_state(
                    q_a@,
                    q_b@,
                    *q_rec,
                    out@,
                    gaps@,
                    dropped@,
                    m@,
                ),
            decreases RECOVERY_BATCH - taken,
        {
            let ghost cur = self.round_state(q_a@, q_b@, *q_rec, out@, gaps@, dropped@, m@);
            match q_rec.pop() {
                Some(pkt) => {
                    proof {
                        lemma_step_in_order(cur.st, pkt, true, now);
                    }
                    self.on_packet(pkt, true, now, out, gaps, dropped, m);
                },
                None => {
                    break;
                },
            }
            taken += 1;
        }
        let ghost rs1 = self.round_state(q_a@, q_b@, *q_rec, out@, gaps@, dropped@, m@);
        proof {
            lemma_poll_grows(rs1, true, now);
            lemma_poll_grows(poll(rs1, true, now), false, now);
        }
        self.poll_feed(true, q_a, q_b, now, out, gaps, dropped, m, Ghost(*q_rec));
        self.poll_feed(false, q_a, q_b, now, out, gaps, dropped, m, Ghost(*q_rec));
        self.checkpoint();
        out.len() > start
    }

    /// Performs the adaptive checkpoint if one is due.
    pub fn checkpoint(&mut self)
        ensures
            final(self).ring == old(self).ring,
            final(self).vars == checkpointed(old(self).vars),
    {
        if self.vars.adaptive && self.vars.forwarded_since_check >= CHECKPOINT_EVERY {
            let w = self.vars.reorder_window;
            let max = self.vars.reorder_window_max;
            let mut w1 = w;
            if self.vars.recent_gaps > 0 && w < max {
                let grow = if w / 4 > 1 {
                    w / 4
                } else {
                    1
                };
                w1 = if grow >= max - w {
                    max
                } else {
                    w + grow
                };
            }
            if self.vars.recent_ooo == 0 && self.vars.recent_gaps == 0 && w1 > MIN_ADAPTIVE_WINDOW {
                let shrunk = w1 - w1 / 8;
                w1 = if shrunk > MIN_ADAPTIVE_WINDOW {
                    shrunk
                } else {
                    MIN_ADAPTIVE_WINDOW
                };
            }
            self.vars.reorder_window = w1;
            let d = self.vars.min_dwell_ns;
            if self.vars.switches_in_window >= 4 {
                self.vars.min_dwell_ns = if d >= MAX_DWELL_NS / 2 {
                    MAX_DWELL_NS
                } else {
                    d * 2
                };
            } else if self.vars.switches_in_window == 0 && d > self.vars.dwell_ns {
                let decayed = d - d / 4;
                self.vars.min_dwell_ns = if decayed > self.vars.dwell_ns {
                    decayed
                } else {
                    self.vars.dwell_ns
                };
            }
            self.vars.forwarded_since_check = 0;
            self.vars.recent_gaps = 0;
            self.vars.recent_ooo = 0;
            self.vars.switches_in_window = 0;
        }
    }
}

} // verus!
