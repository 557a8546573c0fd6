//! Recovery of missing sequence ranges: requests, their coalescing, and the
//! framing of the replay protocol.
use vstd::prelude::*;
use crate::pool::{Pkt, PktBuf, TsKind, CHAN_R};
use crate::wire::{be_u32_at, be_u64_at, be_value};

verus! {

/// A request to the recovery worker.
#[derive(Debug, Clone, Copy, PartialEq, Eq, Structural)]
pub enum RecoveryRequest {
    /// Recover the sequence numbers from `from` to `to`, both included.
    Gap { from: u64, to: u64 },
}

/// Something that takes notice of gaps.
pub trait Replayer {
    fn notify_gap(&self, from: u64, to: u64);
}

#[verifier::external_type_specification]
#[verifier::external_body]
#[verifier::reject_recursive_types(T)]
pub struct ExSender<T>(crossbeam_channel::Sender<T>);

/// `Sender::try_send`: offers a request to the channel without blocking.
/// Whether the channel had room depends on its other users; `true` says the
/// request was taken.
#[verifier::external_body]
fn chan_try_send(tx: &crossbeam_channel::Sender<RecoveryRequest>, req: RecoveryRequest) -> (sent: bool) {
    tx.try_send(req).is_ok()
}

/// The sending end of the channel to the recovery worker.
pub struct Client {
    pub tx: crossbeam_channel::Sender<RecoveryRequest>,
}

impl Client {
    /// Tells the worker of a gap; the notice is dropped if the channel is full.
    pub fn notify_gap(&self, from: u64, to: u64) {
        let _ = chan_try_send(&self.tx, RecoveryRequest::Gap { from, to });
    }
}

impl Replayer for Client {
    fn notify_gap(&self, from: u64, to: u64) {
        Client::notify_gap(self, from, to);
    }
}

/// A range of sequence numbers, both ends included.
pub type Range = (u64, u64);

/// Whether the range `r` overlaps the range `cur` or touches it:
/// `r.0 <= cur.1 + 1` and `r.1 >= cur.0 - 1`, the sums kept within 64 bits.
pub open spec fn touches(cur: Range, r: Range) -> bool {
    r.0 <= cur.1.saturating_add(1) && r.1 >= cur.0.saturating_sub(1)
}

/// The union of `cur` with a range that touches it.
pub open spec fn union(cur: Range, r: Range) -> Range {
    (
        if r.0 < cur.0 {
            r.0
        } else {
            cur.0
        },
        if r.1 > cur.1 {
            r.1
        } else {
            cur.1
        },
    )
}

/// The range to fetch after `first` absorbed, one after the other, those of
/// the queued requests that touch what has been gathered so far.
pub open spec fn coalesced(first: Range, queued: Seq<RecoveryRequest>) -> Range
    decreases queued.len(),
{
    if queued.len() == 0 {
        first
    } else {
        let cur = coalesced(first, queued.drop_last());
        let r = (queued.last()->from, queued.last()->to);
        if touches(cur, r) {
            union(cur, r)
        } else {
            cur
        }
    }
}

/// The queued requests that did not touch what had been gathered when their
/// turn came, in order. They are only written to the backlog.
pub open spec fn set_aside(first: Range, queued: Seq<RecoveryRequest>) -> Seq<Range>
    decreases queued.len(),
{
    if queued.len() == 0 {
        Seq::empty()
    } else {
        let cur = coalesced(first, queued.drop_last());
        let r = (queued.last()->from, queued.last()->to);
        if touches(cur, r) {
            set_aside(first, queued.drop_last())
        } else {
            set_aside(first, queued.drop_last()).push(r)
        }
    }
}

/// The coalesced range contains the first request and every request it absorbed.
pub proof fn lemma_coalesced_covers(first: Range, queued: Seq<RecoveryRequest>)
    ensures
        coalesced(first, queued).0 <= first.0,
        coalesced(first, queued).1 >= first.1,
        forall|i: int|
            0 <= i < queued.len() && touches(coalesced(first, queued.take(i)), (queued[i]->from, queued[i]->to))
                ==> coalesced(first, queued).0 <= #[trigger] queued[i]->from && queued[i]->to <= coalesced(
                first,
                queued,
            ).1,
    decreases queued.len(),
{
    if queued.len() > 0 {
        let q = queued.drop_last();
        lemma_coalesced_covers(first, q);
        assert forall|i: int|
            0 <= i < queued.len() && touches(
                coalesced(first, queued.take(i)),
                (queued[i]->from, queued[i]->to),
            ) implies coalesced(first, queued).0 <= #[trigger] queued[i]->from && queued[i]->to <= coalesced(
            first,
            queued,
        ).1 by {
            if i < q.len() {
                assert(queued.take(i) =~= q.take(i));
                assert(q[i] == queued[i]);
            } else {
                assert(queued.take(i) =~= q);
            }
        }
    }
}

/// What the worker does with a batch of requests.
pub struct Batch {
    /// The range to fetch, if the first request names a range at all.
    pub fetch: Option<Range>,
    /// The ranges that are only written to the backlog.
    pub backlog: Vec<Range>,
}

/// Coalesces the request `first` with the requests `queued` behind it. A
/// first request whose range is empty (`from > to`) yields nothing and leaves
/// the queue unread.
pub fn coalesce(first: RecoveryRequest, queued: &[RecoveryRequest]) -> (b: Batch)
    ensures
        first->from > first->to ==> b.fetch is None && b.backlog@.len() == 0,
        first->from <= first->to ==> b.fetch == Some(coalesced((first->from, first->to), queued@))
            && b.backlog@ == set_aside((first->from, first->to), queued@),
{
    let (mut lo, mut hi) = match first {
        RecoveryRequest::Gap { from, to } => (from, to),
    };
    let mut backlog: Vec<Range> = Vec::new();
    if lo > hi {
        return Batch { fetch: None, backlog };
    }
    let ghost f = (lo, hi);
    let mut i: usize = 0;
    assert(queued@.take(0) =~= Seq::<RecoveryRequest>::empty());
    while i < queued.len()
        invariant
            i <= queued@.len(),
            (lo, hi) == coalesced(f, queued@.take(i as int)),
            backlog@ == set_aside(f, queued@.take(i as int)),
        decreases queued@.len() - i,
    {
        let (from, to) = match queued[i] {
            RecoveryRequest::Gap { from, to } => (from, to),
        };
        proof {
            let t = queued@.take(i + 1);
            assert(t.drop_last() =~= queued@.take(i as int));
            assert(t.last() == queued@[i as int]);
        }
        if from <= hi.saturating_add(1) && to >= lo.saturating_sub(1) {
            if from < lo {
                lo = from;
            }
            if to > hi {
                hi = to;
            }
        } else {
            backlog.push((from, to));
        }
        i += 1;
    }
    assert(queued@.take(i as int) =~= queued@);
    Batch { fetch: Some((lo, hi)), backlog }
}

/// The decimal digits of `n`.
pub open spec fn decimal(n: nat) -> Seq<u8>
    decreases n,
{
    if n < 10 {
        seq![(48 + n) as u8]
    } else {
        decimal(n / 10).push((48 + n % 10) as u8)
    }
}

/// The request line of the replay protocol: `REPLAY <from> <to>` and a line feed.
pub open spec fn spec_replay_request(from: u64, to: u64) -> Seq<u8> {
    seq![82u8, 69u8, 80u8, 76u8, 65u8, 89u8, 32u8] + decimal(from as nat) + seq![32u8] + decimal(to as nat)
        + seq![10u8]
}

/// Appends the decimal digits of `n`.
fn push_decimal(out: &mut Vec<u8>, n: u64)
    ensures
        final(out)@ == old(out)@ + decimal(n as nat),
    decreases n,
{
    if n < 10 {
        out.push(48 + n as u8);
        assert(out@ =~= old(out)@ + decimal(n as nat));
    } else {
        push_decimal(out, n / 10);
        out.push(48 + (n % 10) as u8);
        assert(out@ =~= old(out)@ + decimal(n as nat));
    }
}

/// The bytes of the request for the range from `from` to `to`.
pub fn replay_request(from: u64, to: u64) -> (line: Vec<u8>)
    ensures
        line@ == spec_replay_request(from, to),
{
    let mut out: Vec<u8> = Vec::new();
    out.push(82);
    out.push(69);
    out.push(80);
    out.push(76);
    out.push(65);
    out.push(89);
    out.push(32);
    push_decimal(&mut out, from);
    out.push(32);
    push_decimal(&mut out, to);
    out.push(10);
    assert(out@ =~= spec_replay_request(from, to));
    out
}

/// Length of the header of a replayed frame: payload length (32 bits) and
/// sequence number (64 bits), both big-endian.
pub const REPLAY_HEADER_LEN: usize = 12;

/// What the header of a replayed frame asks of the reader.
#[derive(Debug, Clone, Copy, PartialEq, Eq, Structural)]
pub enum ReplayStep {
    /// A length of zero: the reply is complete.
    End,
    /// The payload does not fit the buffer: the batch is abandoned.
    TooLarge { len: usize },
    /// Read `len` payload bytes of the packet numbered `seq`.
    Frame { len: usize, seq: u64 },
}

/// What the 12 header bytes `hdr` ask of a reader whose buffer has room for `room` bytes.
pub open spec fn spec_replay_step(hdr: Seq<u8>, room: usize) -> ReplayStep {
    let len = be_value(hdr, 0, 4);
    if len == 0 {
        ReplayStep::End
    } else if len > room {
        ReplayStep::TooLarge { len: len as usize }
    } else {
        ReplayStep::Frame { len: len as usize, seq: be_value(hdr, 4, 8) as u64 }
    }
}

/// Judges the header of a replayed frame.
pub fn replay_step(hdr: &[u8], room: usize) -> (step: ReplayStep)
    requires
        hdr@.len() >= REPLAY_HEADER_LEN,
    ensures
        step == spec_replay_step(hdr@, room),
{
    let len = be_u32_at(hdr, 0) as usize;
    let seq = be_u64_at(hdr, 4);
    if len == 0 {
        ReplayStep::End
    } else if len > room {
        ReplayStep::TooLarge { len }
    } else {
        ReplayStep::Frame { len, seq }
    }
}

/// The packet of a replayed payload that was read into `buf` at time `now`.
pub fn recovered_pkt(buf: bytes::BytesMut, len: usize, seq: u64, now: u64) -> (p: Pkt)
    ensures
        p.buf == PktBuf::Bytes(buf),
        p.len == len,
        p.seq == seq,
        p.ts_nanos == now,
        p.chan == CHAN_R,
        p._ts_kind == TsKind::Sw,
        p.merge_emit_ns == 0,
{
    Pkt { buf: PktBuf::Bytes(buf), len, seq, ts_nanos: now, chan: CHAN_R, _ts_kind: TsKind::Sw, merge_emit_ns: 0 }
}

/// Shortest time between two gap warnings of the logging fallback, in nanoseconds.
pub const LOG_EVERY_NS: u64 = 100_000_000;

/// The rate limit of the logging fallback.
pub struct GapLogger {
    pub last_log_ns: u64,
}

impl GapLogger {
    pub fn new() -> (g: Self)
        ensures
            g.last_log_ns == 0,
    {
        GapLogger { last_log_ns: 0 }
    }

    /// Whether a gap seen at `now` is logged: only if the last logged gap
    /// lies `LOG_EVERY_NS` or more in the past.
    pub fn should_log(&mut self, now: u64) -> (log: bool)
        ensures
            log == (now.saturating_sub(old(self).last_log_ns) >= LOG_EVERY_NS),
            final(self).last_log_ns == if log {
                now
            } else {
                old(self).last_log_ns
            },
    {
        if now.saturating_sub(self.last_log_ns) >= LOG_EVERY_NS {
            self.last_log_ns = now;
            true
        } else {
            false
        }
    }
}

} // verus!
