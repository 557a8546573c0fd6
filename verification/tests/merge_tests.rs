use bytes::BytesMut;
use feed_ingest::merge::{Gap, MergeConfig, Merger};
use feed_ingest::metrics::Metrics;
use feed_ingest::pool::{Pkt, PktBuf, TsKind};
use feed_ingest::spsc::SpscQueue;

fn pkt(seq: u64, chan: u8) -> Pkt {
    Pkt {
        buf: PktBuf::Bytes(BytesMut::new()),
        len: 0,
        seq,
        ts_nanos: 0,
        chan,
        _ts_kind: TsKind::Sw,
        merge_emit_ns: 0,
    }
}

fn cfg(window: u64) -> MergeConfig {
    MergeConfig {
        next_seq: 1,
        reorder_window: window,
        max_pending: 64,
        dwell_ns: 0,
        adaptive: false,
        reorder_window_max: 8,
    }
}

struct Rig {
    m: Merger,
    qa: Vec<SpscQueue<Pkt>>,
    qb: Vec<SpscQueue<Pkt>>,
    qr: SpscQueue<Pkt>,
    out: Vec<Pkt>,
    gaps: Vec<Gap>,
    dropped: Vec<Pkt>,
    metrics: Metrics,
}

fn rig(window: u64) -> Rig {
    Rig {
        m: Merger::new(cfg(window), 0),
        qa: vec![SpscQueue::new(64)],
        qb: vec![SpscQueue::new(64)],
        qr: SpscQueue::new(64),
        out: Vec::new(),
        gaps: Vec::new(),
        dropped: Vec::new(),
        metrics: Metrics::new(),
    }
}

impl Rig {
    fn rounds(&mut self, n: usize, now: u64) {
        for _ in 0..n {
            self.m.poll_round(
                &mut self.qa,
                &mut self.qb,
                &mut self.qr,
                now,
                &mut self.out,
                &mut self.gaps,
                &mut self.dropped,
                &mut self.metrics,
            );
        }
    }

    fn seqs(&self) -> Vec<u64> {
        self.out.iter().map(|p| p.seq).collect()
    }

    fn chans(&self) -> Vec<u8> {
        self.out.iter().map(|p| p.chan).collect()
    }
}

#[test]
fn merge_reorders_in_window_and_drops_dupes() {
    let mut r = rig(4);
    // Feed out-of-order within window and duplicates across channels
    let _ = r.qa[0].push(pkt(1, b'A'));
    let _ = r.qb[0].push(pkt(3, b'B'));
    let _ = r.qa[0].push(pkt(2, b'A'));
    let _ = r.qb[0].push(pkt(2, b'B')); // duplicate
    let _ = r.qa[0].push(pkt(4, b'A'));
    r.rounds(8, 1000);
    assert_eq!(r.seqs(), vec![1, 2, 3, 4]);
}

#[test]
fn happy_path_forwards_a_and_counts_b_as_duplicates() {
    let mut r = rig(4);
    for s in 1..=4 {
        let _ = r.qa[0].push(pkt(s, b'A'));
        let _ = r.qb[0].push(pkt(s, b'B'));
    }
    r.rounds(4, 5);
    assert_eq!(r.seqs(), vec![1, 2, 3, 4]);
    assert_eq!(r.chans(), vec![b'A'; 4]);
    assert_eq!(r.metrics.merge_duplicates, 4);
    assert_eq!(r.metrics.merge_failovers, 0);
    assert_eq!(r.metrics.merge_forward_packets.a, 4);
    assert!(r.gaps.is_empty());
    assert_eq!(r.m.vars.next_seq, 5);
    assert!(r.out.iter().all(|p| p.merge_emit_ns == 5));
}

#[test]
fn reorder_within_window() {
    let mut r = rig(4);
    // input order: A=1, B=3, A=2, B=2 (dup), A=4
    let mut out = Vec::new();
    let mut gaps = Vec::new();
    let mut dropped = Vec::new();
    let mut m = Metrics::new();
    let mut mg = Merger::new(cfg(4), 0);
    for (s, c) in [(1u64, b'A'), (3, b'B'), (2, b'A'), (2, b'B'), (4, b'A')] {
        mg.on_packet(pkt(s, c), false, 10, &mut out, &mut gaps, &mut dropped, &mut m);
    }
    let seqs: Vec<u64> = out.iter().map(|p| p.seq).collect();
    assert_eq!(seqs, vec![1, 2, 3, 4]);
    assert_eq!(m.merge_duplicates, 1);
    // packet 3 counts once when it is buffered and once when it is released
    assert_eq!(m.merge_out_of_order, 2);
    assert!(m.merge_out_of_order >= 2);
    assert_eq!(mg.vars.pending_count, 0);
    assert_eq!(mg.vars.forwarded_since_check, 4);
    assert_eq!(mg.vars.recent_ooo, 1);
    // through the queues the same packets come out in order, too
    let _ = r.qa[0].push(pkt(1, b'A'));
    let _ = r.qb[0].push(pkt(3, b'B'));
    let _ = r.qa[0].push(pkt(2, b'A'));
    let _ = r.qb[0].push(pkt(2, b'B'));
    let _ = r.qa[0].push(pkt(4, b'A'));
    r.rounds(4, 10);
    assert_eq!(r.seqs(), vec![1, 2, 3, 4]);
    assert_eq!(r.metrics.merge_duplicates, 1);
}

#[test]
fn unfillable_gap_asks_for_replay_once() {
    let mut r = rig(4);
    for s in [1u64, 2, 8] {
        let _ = r.qa[0].push(pkt(s, b'A'));
    }
    r.rounds(5, 10);
    assert_eq!(r.seqs(), vec![1, 2]);
    assert_eq!(r.gaps, vec![Gap { from: 3, to: 7 }]);
    assert_eq!(r.metrics.merge_gaps, 1);
    assert_eq!(r.metrics.merge_gaps_by_chan.a, 1);
    assert_eq!(r.m.vars.next_seq, 3);
    assert_eq!(r.m.vars.pending_count, 0);
}

#[test]
fn failover_hysteresis() {
    let mut mg = Merger::new(cfg(4), 0);
    let mut out = Vec::new();
    let mut gaps = Vec::new();
    let mut dropped = Vec::new();
    let mut m = Metrics::new();
    let now = 0;
    assert_eq!(mg.vars.min_dwell_ns, 0);
    mg.on_packet(pkt(1, b'A'), false, now, &mut out, &mut gaps, &mut dropped, &mut m);
    assert!(mg.vars.prefer_a);
    mg.on_packet(pkt(2, b'B'), false, now, &mut out, &mut gaps, &mut dropped, &mut m);
    assert!(mg.vars.prefer_a);
    assert_eq!(mg.vars.streak_nonpreferred, 1);
    mg.on_packet(pkt(3, b'B'), false, now, &mut out, &mut gaps, &mut dropped, &mut m);
    assert!(!mg.vars.prefer_a);
    assert_eq!(m.merge_failovers, 1);
    assert_eq!(m.merge_preferred_is_a, 0);
    mg.on_packet(pkt(4, b'A'), false, now, &mut out, &mut gaps, &mut dropped, &mut m);
    assert!(!mg.vars.prefer_a);
    let chans: Vec<u8> = out.iter().map(|p| p.chan).collect();
    assert_eq!(chans, vec![b'A', b'B', b'B', b'A']);
    assert_eq!(mg.vars.streak_preferred, 0);
    assert_eq!(mg.vars.streak_nonpreferred, 1);
}

#[test]
fn no_failover_before_the_dwell_has_passed() {
    let mut c = cfg(4);
    c.dwell_ns = 2_000_000;
    let mut mg = Merger::new(c, 1_000);
    let mut out = Vec::new();
    let mut gaps = Vec::new();
    let mut dropped = Vec::new();
    let mut m = Metrics::new();
    assert_eq!(mg.vars.min_dwell_ns, 2_000_000);
    for s in 1..=5u64 {
        mg.on_packet(pkt(s, b'B'), false, 1_000_000, &mut out, &mut gaps, &mut dropped, &mut m);
    }
    assert!(mg.vars.prefer_a);
    mg.on_packet(pkt(6, b'B'), false, 2_001_000, &mut out, &mut gaps, &mut dropped, &mut m);
    assert!(!mg.vars.prefer_a);
    // eight forwards in a row from B, while B is preferred, bring A back
    for s in 7..=13u64 {
        mg.on_packet(pkt(s, b'B'), false, 9_000_000, &mut out, &mut gaps, &mut dropped, &mut m);
        assert!(!mg.vars.prefer_a);
    }
    mg.on_packet(pkt(14, b'B'), false, 9_000_000, &mut out, &mut gaps, &mut dropped, &mut m);
    assert!(mg.vars.prefer_a);
    assert_eq!(m.merge_failovers, 2);
    assert_eq!(mg.vars.switches_in_window, 2);
}

#[test]
fn recovery_splice_fills_the_gap() {
    let mut r = rig(2);
    for s in [1u64, 2, 6] {
        let _ = r.qa[0].push(pkt(s, b'A'));
    }
    r.rounds(3, 10);
    assert_eq!(r.seqs(), vec![1, 2]);
    assert_eq!(r.gaps, vec![Gap { from: 3, to: 5 }]);
    for s in 3..=5u64 {
        let _ = r.qr.push(pkt(s, b'R'));
    }
    let _ = r.qb[0].push(pkt(6, b'B'));
    r.rounds(2, 20);
    assert_eq!(r.seqs(), vec![1, 2, 3, 4, 5, 6]);
    assert_eq!(r.chans(), vec![b'A', b'A', b'R', b'R', b'R', b'B']);
    assert_eq!(r.metrics.merge_forward_packets.r, 3);
}

#[test]
fn round_robin_over_workers() {
    let mut r = rig(4);
    r.qa.push(SpscQueue::new(8));
    let _ = r.qa[1].push(pkt(1, b'A'));
    let _ = r.qa[0].push(pkt(2, b'A'));
    // round 1 asks worker 0 of A, which holds 2: buffered; round 2 asks worker 1
    r.rounds(1, 1);
    assert_eq!(r.seqs(), Vec::<u64>::new());
    assert_eq!(r.m.vars.pending_count, 1);
    r.rounds(1, 1);
    assert_eq!(r.seqs(), vec![1, 2]);
    assert_eq!(r.m.vars.idx_a, 2);
    assert_eq!(r.m.vars.idx_b, 2);
}

#[test]
fn pending_limit_turns_early_packets_into_gaps() {
    let mut c = cfg(4);
    c.max_pending = 1;
    let mut mg = Merger::new(c, 0);
    let mut out = Vec::new();
    let mut gaps = Vec::new();
    let mut dropped = Vec::new();
    let mut m = Metrics::new();
    mg.on_packet(pkt(3, b'A'), false, 1, &mut out, &mut gaps, &mut dropped, &mut m);
    mg.on_packet(pkt(4, b'A'), false, 1, &mut out, &mut gaps, &mut dropped, &mut m);
    assert_eq!(gaps, vec![Gap { from: 1, to: 3 }]);
    assert_eq!(mg.vars.recent_gaps, 1);
    assert!(out.is_empty());
}

#[test]
fn adaptive_checkpoint_grows_and_shrinks() {
    let mut c = cfg(16);
    c.adaptive = true;
    c.reorder_window_max = 18;
    c.dwell_ns = 1_000_000;
    let mut mg = Merger::new(c, 0);
    mg.checkpoint();
    assert_eq!(mg.vars.reorder_window, 16);
    mg.vars.forwarded_since_check = 4096;
    mg.vars.recent_gaps = 2;
    mg.vars.switches_in_window = 4;
    mg.checkpoint();
    assert_eq!(mg.vars.reorder_window, 18);
    assert_eq!(mg.vars.min_dwell_ns, 2_000_000);
    assert_eq!(mg.vars.forwarded_since_check, 0);
    assert_eq!(mg.vars.recent_gaps, 0);
    mg.vars.forwarded_since_check = 5000;
    mg.checkpoint();
    assert_eq!(mg.vars.reorder_window, 16);
    assert_eq!(mg.vars.min_dwell_ns, 1_500_000);
    mg.vars.forwarded_since_check = 5000;
    mg.vars.min_dwell_ns = 40_000_000;
    mg.vars.switches_in_window = 9;
    mg.vars.recent_ooo = 1;
    mg.checkpoint();
    assert_eq!(mg.vars.min_dwell_ns, 50_000_000);
    assert_eq!(mg.vars.reorder_window, 16);
}

#[test]
fn ring_queue_is_fifo_and_bounded() {
    let mut q: SpscQueue<u32> = SpscQueue::new(3);
    assert_eq!(q.len(), 0);
    assert_eq!(q.pop(), None);
    for i in 0..4 {
        assert_eq!(q.push(i), Ok(()));
    }
    assert_eq!(q.push(9), Err(9));
    assert_eq!(q.len(), 4);
    assert_eq!(q.pop(), Some(0));
    assert_eq!(q.push(4), Ok(()));
    for i in 1..5 {
        assert_eq!(q.pop(), Some(i));
    }
    assert_eq!(q.pop(), None);
    assert_eq!(q.push_with_backoff(7, 3), Ok(()));
    assert_eq!(q.push_with_backoff(8, 0), Ok(()));
    assert_eq!(q.len(), 2);
    let mut tiny: SpscQueue<u8> = SpscQueue::new(0);
    assert_eq!(tiny.push(1), Ok(()));
    assert_eq!(tiny.push(2), Ok(()));
    assert_eq!(tiny.push(3), Err(3));
    assert_eq!(tiny.push_with_backoff(3, 5), Err(3));
    assert_eq!(tiny.len(), 2);
}

#[test]
fn packets_that_are_not_kept_are_handed_back() {
    let mut mg = Merger::new(cfg(4), 0);
    let mut out = Vec::new();
    let mut gaps = Vec::new();
    let mut dropped = Vec::new();
    let mut m = Metrics::new();
    // in order, early, the same early one again, a duplicate, one past the window
    for (s, c) in [(1u64, b'A'), (3, b'B'), (3, b'A'), (1, b'B'), (9, b'A')] {
        mg.on_packet(pkt(s, c), false, 5, &mut out, &mut gaps, &mut dropped, &mut m);
    }
    let held = mg.ring.iter().filter(|e| e.is_some()).count();
    assert_eq!(out.len() + held + dropped.len(), 5);
    assert_eq!(out.len(), 1);
    assert_eq!(held, 1);
    let back: Vec<(u64, u8)> = dropped.iter().map(|p| (p.seq, p.chan)).collect();
    assert_eq!(back, vec![(3, b'A'), (1, b'B'), (9, b'A')]);
    assert_eq!(gaps, vec![Gap { from: 2, to: 8 }]);
    // a stale packet that a newer one pushes out of its slot comes back too
    mg.vars.next_seq = 4;
    mg.on_packet(pkt(8, b'A'), false, 5, &mut out, &mut gaps, &mut dropped, &mut m);
    assert_eq!(dropped.last().map(|p| p.seq), Some(3));
    assert_eq!(mg.ring.iter().filter(|e| e.is_some()).count(), 1);
}
