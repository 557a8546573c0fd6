//! The binary wire format of client frames: a fixed little-endian header
//! followed by a payload whose layout depends on the message type.
use vstd::prelude::*;
use crate::wire::{as_unsigned_64, i64_to_u64, le_u16_at, le_u32_at, le_u64_at, le_value};

verus! {

/// Length of the frame header in bytes.
pub const HEADER_LEN: usize = 40;

/// Header version that this crate writes.
pub const VERSION_V1: u8 = 1;

/// Codec identifier of raw fixed-layout payloads.
pub const RAW_V1: u8 = 0;

/// Channel identifier of the order-by-order feed.
pub const OBO_L3: u32 = 0;

pub const HEARTBEAT: u16 = 1;

pub const GAP: u16 = 2;

pub const SNAPSHOT_START: u16 = 3;

pub const SNAPSHOT_END: u16 = 4;

pub const SEQ_RESET: u16 = 5;

pub const OBO_ADD: u16 = 100;

pub const OBO_MODIFY: u16 = 101;

pub const OBO_CANCEL: u16 = 102;

pub const OBO_EXECUTE: u16 = 103;

pub const SNAPSHOT_HDR: u16 = 104;

/// The four bytes every frame starts with: `OBv1`.
pub open spec fn spec_magic() -> Seq<u8> {
    seq![79u8, 66u8, 118u8, 49u8]
}

/// The four bytes every frame starts with: `OBv1`.
pub fn magic() -> (m: [u8; 4])
    ensures
        m@ == spec_magic(),
{
    let m: [u8; 4] = [79, 66, 118, 49];
    assert(m@ =~= spec_magic());
    m
}

/// The `n` low bytes of `v`, least significant first.
pub open spec fn le_bytes(v: int, n: nat) -> Seq<u8>
    decreases n,
{
    if n == 0 {
        Seq::empty()
    } else {
        seq![(v % 256) as u8] + le_bytes(v / 256, (n - 1) as nat)
    }
}

/// `256^n`.
pub open spec fn pow256(n: nat) -> int
    decreases n,
{
    if n == 0 {
        1
    } else {
        256 * pow256((n - 1) as nat)
    }
}

/// `le_bytes` yields `n` bytes.
pub proof fn lemma_le_bytes_len(v: int, n: nat)
    ensures
        le_bytes(v, n).len() == n,
    decreases n,
{
    if n > 0 {
        lemma_le_bytes_len(v / 256, (n - 1) as nat);
    }
}

/// Reading the bytes of a value gives the value back, wherever the bytes lie.
pub proof fn lemma_le_round_trip(b: Seq<u8>, off: int, v: int, n: nat)
    requires
        0 <= v < pow256(n),
        0 <= off,
        off + n <= b.len(),
        b.subrange(off, off + n) == le_bytes(v, n),
    ensures
        le_value(b, off, n) == v,
    decreases n,
{
    if n > 0 {
        let rest = le_bytes(v / 256, (n - 1) as nat);
        lemma_le_bytes_len(v / 256, (n - 1) as nat);
        let sub = b.subrange(off, off + n);
        assert(sub[0] == b[off]);
        assert(b.subrange(off + 1, off + n) =~= sub.subrange(1, n as int));
        assert(sub.subrange(1, n as int) =~= rest);
        assert(0 <= v / 256 < pow256((n - 1) as nat)) by (nonlinear_arith)
            requires
                0 <= v < 256 * pow256((n - 1) as nat),
        ;
        lemma_le_round_trip(b, off + 1, v / 256, (n - 1) as nat);
        assert(v == 256 * (v / 256) + v % 256) by (nonlinear_arith)
            requires
                v >= 0,
        ;
        assert(0 <= v % 256 < 256);
    }
}

/// The frame header.
#[derive(Debug, Clone, Copy, PartialEq, Eq)]
pub struct FrameHeaderV1 {
    pub magic: [u8; 4],
    pub version: u8,
    pub codec: u8,
    pub message_type: u16,
    pub channel_id: u32,
    pub instrument_id: u64,
    pub sequence: u64,
    pub send_time_ns: u64,
    pub payload_len: u32,
}

/// Payload of a heartbeat.
#[derive(Debug, Clone, Copy, PartialEq, Eq, Structural)]
pub struct HeartbeatV1 {
    pub reserved: u64,
}

/// Payload of a gap notice: the missing range, both ends included.
#[derive(Debug, Clone, Copy, PartialEq, Eq, Structural)]
pub struct GapV1 {
    pub from_inclusive: u64,
    pub to_inclusive: u64,
}

/// Payload that opens a snapshot.
#[derive(Debug, Clone, Copy, PartialEq, Eq, Structural)]
pub struct SnapshotStartV1 {
    pub reserved: u32,
}

/// Payload that closes a snapshot.
#[derive(Debug, Clone, Copy, PartialEq, Eq, Structural)]
pub struct SnapshotEndV1 {
    pub reserved: u32,
}

/// Payload of a sequence reset.
#[derive(Debug, Clone, Copy, PartialEq, Eq, Structural)]
pub struct SeqResetV1 {
    pub new_start_seq: u64,
}

/// Payload of an added order.
#[derive(Debug, Clone, Copy, PartialEq, Eq, Structural)]
pub struct OboAddV1 {
    pub order_id: u64,
    pub price_e8: i64,
    pub qty: u64,
    /// 0 for a bid, 1 for an ask.
    pub side: u8,
    pub flags: u8,
}

/// Payload of a modified order.
#[derive(Debug, Clone, Copy, PartialEq, Eq, Structural)]
pub struct OboModifyV1 {
    pub order_id: u64,
    pub new_price_e8: i64,
    pub new_qty: u64,
    /// 1 if only the quantity changed.
    pub flags: u8,
}

/// Payload of a cancelled order.
#[derive(Debug, Clone, Copy, PartialEq, Eq, Structural)]
pub struct OboCancelV1 {
    pub order_id: u64,
    pub qty_cxl: u64,
    pub reason: u8,
}

/// Payload of an execution.
#[derive(Debug, Clone, Copy, PartialEq, Eq, Structural)]
pub struct OboExecuteV1 {
    pub maker_order_id: u64,
    pub trade_qty: u64,
    pub trade_price_e8: i64,
    /// 0 if the aggressor bought, 1 if it sold.
    pub aggressor_side: u8,
    pub match_id: u64,
}

/// Payload that precedes the orders of one instrument in a snapshot.
#[derive(Debug, Clone, Copy, PartialEq, Eq, Structural)]
pub struct FullBookSnapshotHdrV1 {
    pub level_count: u32,
    pub total_orders: u32,
}

/// Appends the `n` low bytes of `v`, least significant first.
fn put_le(out: &mut Vec<u8>, v: u64, n: usize)
    requires
        n <= 8,
    ensures
        final(out)@ == old(out)@ + le_bytes(v as int, n as nat),
{
    let mut x = v;
    let mut i: usize = 0;
    let ghost out0 = out@;
    assert(out@ =~= out0 + le_bytes(v as int, 0));
    while i < n
        invariant
            i <= n <= 8,
            out0 + le_bytes(v as int, n as nat) == out@ + le_bytes(x as int, (n - i) as nat),
        decreases n - i,
    {
        let ghost before = out@;
        out.push((x % 256) as u8);
        proof {
            assert(before + (seq![(x % 256) as u8] + le_bytes(x as int / 256, (n - i - 1) as nat)) =~= before.push(
                (x % 256) as u8,
            ) + le_bytes(x as int / 256, (n - i - 1) as nat));
        }
        x = x / 256;
        i += 1;
    }
    assert(out@ + le_bytes(x as int, 0) =~= out@);
}

impl FrameHeaderV1 {
    /// The header as a mathematical value: its fields with the magic as a sequence.
    pub open spec fn fields(self) -> (Seq<u8>, u8, u8, u16, u32, u64, u64, u64, u32) {
        (
            self.magic@,
            self.version,
            self.codec,
            self.message_type,
            self.channel_id,
            self.instrument_id,
            self.sequence,
            self.send_time_ns,
            self.payload_len,
        )
    }

    /// The 40 bytes of the header: magic, version, codec, message type,
    /// channel, instrument, sequence, send time and payload length, integers
    /// least significant byte first, nothing in between.
    pub open spec fn spec_bytes(self) -> Seq<u8> {
        self.magic@ + seq![self.version, self.codec] + le_bytes(self.message_type as int, 2) + le_bytes(
            self.channel_id as int,
            4,
        ) + le_bytes(self.instrument_id as int, 8) + le_bytes(self.sequence as int, 8) + le_bytes(
            self.send_time_ns as int,
            8,
        ) + le_bytes(self.payload_len as int, 4)
    }

    /// Whether the header carries the magic and the version that this crate writes.
    pub open spec fn spec_is_valid(self) -> bool {
        self.magic@ == spec_magic() && self.version == VERSION_V1
    }

    /// A version 1 header of a raw payload.
    pub fn new(
        message_type: u16,
        channel_id: u32,
        instrument_id: u64,
        sequence: u64,
        send_time_ns: u64,
        payload_len: u32,
    ) -> (h: Self)
        ensures
            h.fields() == (
                spec_magic(),
                VERSION_V1,
                RAW_V1,
                message_type,
                channel_id,
                instrument_id,
                sequence,
                send_time_ns,
                payload_len,
            ),
    {
        FrameHeaderV1 {
            magic: magic(),
            version: VERSION_V1,
            codec: RAW_V1,
            message_type,
            channel_id,
            instrument_id,
            sequence,
            send_time_ns,
            payload_len,
        }
    }

    /// Appends the bytes of the header to `out`.
    pub fn write_to(&self, out: &mut Vec<u8>)
        ensures
            final(out)@ == old(out)@ + self.spec_bytes(),
    {
        let ghost out0 = out@;
        out.push(self.magic[0]);
        out.push(self.magic[1]);
        out.push(self.magic[2]);
        out.push(self.magic[3]);
        out.push(self.version);
        out.push(self.codec);
        assert(out@ =~= out0 + self.magic@ + seq![self.version, self.codec]);
        put_le(out, self.message_type as u64, 2);
        put_le(out, self.channel_id as u64, 4);
        put_le(out, self.instrument_id, 8);
        put_le(out, self.sequence, 8);
        put_le(out, self.send_time_ns, 8);
        put_le(out, self.payload_len as u64, 4);
        assert(out@ =~= out0 + self.spec_bytes());
    }

    /// The bytes of the header.
    pub fn to_bytes(&self) -> (b: Vec<u8>)
        ensures
            b@ == self.spec_bytes(),
            b@.len() == HEADER_LEN,
    {
        let mut out: Vec<u8> = Vec::new();
        self.write_to(&mut out);
        proof {
            self.lemma_bytes_len();
            assert(Seq::<u8>::empty() + self.spec_bytes() =~= self.spec_bytes());
        }
        out
    }

    /// A header takes 40 bytes.
    pub proof fn lemma_bytes_len(self)
        ensures
            self.spec_bytes().len() == HEADER_LEN,
    {
        lemma_le_bytes_len(self.message_type as int, 2);
        lemma_le_bytes_len(self.channel_id as int, 4);
        lemma_le_bytes_len(self.instrument_id as int, 8);
        lemma_le_bytes_len(self.sequence as int, 8);
        lemma_le_bytes_len(self.send_time_ns as int, 8);
        lemma_le_bytes_len(self.payload_len as int, 4);
    }

    /// The fields that the first 40 bytes of `b` denote.
    pub open spec fn spec_read(b: Seq<u8>) -> (Seq<u8>, u8, u8, u16, u32, u64, u64, u64, u32) {
        (
            b.subrange(0, 4),
            b[4],
            b[5],
            le_value(b, 6, 2) as u16,
            le_value(b, 8, 4) as u32,
            le_value(b, 12, 8) as u64,
            le_value(b, 20, 8) as u64,
            le_value(b, 28, 8) as u64,
            le_value(b, 36, 4) as u32,
        )
    }

    /// Reads a header from the start of `b`. Gives nothing if `b` is shorter
    /// than a header; the fields are not judged.
    pub fn read(b: &[u8]) -> (r: Option<Self>)
        ensures
            r is Some <==> b@.len() >= HEADER_LEN,
            r matches Some(h) ==> h.fields() == FrameHeaderV1::spec_read(b@),
    {
        if b.len() < HEADER_LEN {
            return None;
        }
        let m: [u8; 4] = [b[0], b[1], b[2], b[3]];
        assert(m@ =~= b@.subrange(0, 4));
        Some(
            FrameHeaderV1 {
                magic: m,
                version: b[4],
                codec: b[5],
                message_type: le_u16_at(b, 6),
                channel_id: le_u32_at(b, 8),
                instrument_id: le_u64_at(b, 12),
                sequence: le_u64_at(b, 20),
                send_time_ns: le_u64_at(b, 28),
                payload_len: le_u32_at(b, 36),
            },
        )
    }

    /// Whether the header carries the magic and the version that this crate writes.
    pub fn is_valid(&self) -> (ok: bool)
        ensures
            ok == self.spec_is_valid(),
    {
        let ok = self.magic[0] == 79 && self.magic[1] == 66 && self.magic[2] == 118 && self.magic[3] == 49
            && self.version == VERSION_V1;
        proof {
            if ok {
                assert(self.magic@ =~= spec_magic());
            } else if self.version == VERSION_V1 {
                assert(spec_magic()[0] == 79 && spec_magic()[1] == 66 && spec_magic()[2] == 118
                    && spec_magic()[3] == 49);
            }
        }
        ok
    }
}

/// Writing a header and reading what was written gives the fields back,
/// whatever follows the header.
pub proof fn lemma_header_round_trip(h: FrameHeaderV1, rest: Seq<u8>)
    requires
        h.magic@.len() == 4,
    ensures
        FrameHeaderV1::spec_read(h.spec_bytes() + rest) == h.fields(),
{
    let b = h.spec_bytes() + rest;
    h.lemma_bytes_len();
    lemma_le_bytes_len(h.message_type as int, 2);
    lemma_le_bytes_len(h.channel_id as int, 4);
    lemma_le_bytes_len(h.instrument_id as int, 8);
    lemma_le_bytes_len(h.sequence as int, 8);
    lemma_le_bytes_len(h.send_time_ns as int, 8);
    lemma_le_bytes_len(h.payload_len as int, 4);
    assert(b.subrange(0, 4) =~= h.magic@);
    assert(b.subrange(6, 8) =~= le_bytes(h.message_type as int, 2));
    assert(b.subrange(8, 12) =~= le_bytes(h.channel_id as int, 4));
    assert(b.subrange(12, 20) =~= le_bytes(h.instrument_id as int, 8));
    assert(b.subrange(20, 28) =~= le_bytes(h.sequence as int, 8));
    assert(b.subrange(28, 36) =~= le_bytes(h.send_time_ns as int, 8));
    assert(b.subrange(36, 40) =~= le_bytes(h.payload_len as int, 4));
    assert(pow256(2) == 0x1_0000 && pow256(4) == 0x1_0000_0000 && pow256(8) == 0x1_0000_0000_0000_0000) by {
        reveal_with_fuel(pow256, 9);
    }
    lemma_le_round_trip(b, 6, h.message_type as int, 2);
    lemma_le_round_trip(b, 8, h.channel_id as int, 4);
    lemma_le_round_trip(b, 12, h.instrument_id as int, 8);
    lemma_le_round_trip(b, 20, h.sequence as int, 8);
    lemma_le_round_trip(b, 28, h.send_time_ns as int, 8);
    lemma_le_round_trip(b, 36, h.payload_len as int, 4);
}

impl HeartbeatV1 {
    pub open spec fn spec_bytes(self) -> Seq<u8> {
        le_bytes(self.reserved as int, 8)
    }

    /// The 8 bytes of the payload.
    pub fn to_bytes(&self) -> (b: Vec<u8>)
        ensures
            b@ == self.spec_bytes(),
    {
        let mut out: Vec<u8> = Vec::new();
        put_le(&mut out, self.reserved, 8);
        assert(Seq::<u8>::empty() + self.spec_bytes() =~= self.spec_bytes());
        out
    }
}

impl GapV1 {
    pub open spec fn spec_bytes(self) -> Seq<u8> {
        le_bytes(self.from_inclusive as int, 8) + le_bytes(self.to_inclusive as int, 8)
    }

    /// The 16 bytes of the payload: first and last missing sequence number.
    pub fn to_bytes(&self) -> (b: Vec<u8>)
        ensures
            b@ == self.spec_bytes(),
    {
        let mut out: Vec<u8> = Vec::new();
        put_le(&mut out, self.from_inclusive, 8);
        put_le(&mut out, self.to_inclusive, 8);
        assert(out@ =~= self.spec_bytes());
        out
    }
}

impl SnapshotStartV1 {
    pub open spec fn spec_bytes(self) -> Seq<u8> {
        le_bytes(self.reserved as int, 4)
    }

    /// The 4 bytes of the payload.
    pub fn to_bytes(&self) -> (b: Vec<u8>)
        ensures
            b@ == self.spec_bytes(),
    {
        let mut out: Vec<u8> = Vec::new();
        put_le(&mut out, self.reserved as u64, 4);
        assert(out@ =~= self.spec_bytes());
        out
    }
}

impl SnapshotEndV1 {
    pub open spec fn spec_bytes(self) -> Seq<u8> {
        le_bytes(self.reserved as int, 4)
    }

    /// The 4 bytes of the payload.
    pub fn to_bytes(&self) -> (b: Vec<u8>)
        ensures
            b@ == self.spec_bytes(),
    {
        let mut out: Vec<u8> = Vec::new();
        put_le(&mut out, self.reserved as u64, 4);
        assert(out@ =~= self.spec_bytes());
        out
    }
}

impl SeqResetV1 {
    pub open spec fn spec_bytes(self) -> Seq<u8> {
        le_bytes(self.new_start_seq as int, 8)
    }

    /// The 8 bytes of the payload.
    pub fn to_bytes(&self) -> (b: Vec<u8>)
        ensures
            b@ == self.spec_bytes(),
    {
        let mut out: Vec<u8> = Vec::new();
        put_le(&mut out, self.new_start_seq, 8);
        assert(out@ =~= self.spec_bytes());
        out
    }
}

impl OboAddV1 {
    pub open spec fn spec_bytes(self) -> Seq<u8> {
        le_bytes(self.order_id as int, 8) + le_bytes(as_unsigned_64(self.price_e8 as int), 8) + le_bytes(
            self.qty as int,
            8,
        ) + seq![self.side, self.flags]
    }

    /// The 26 bytes of the payload: order id, price, quantity, side and flags.
    pub fn to_bytes(&self) -> (b: Vec<u8>)
        ensures
            b@ == self.spec_bytes(),
    {
        let mut out: Vec<u8> = Vec::new();
        put_le(&mut out, self.order_id, 8);
        put_le(&mut out, i64_to_u64(self.price_e8), 8);
        put_le(&mut out, self.qty, 8);
        out.push(self.side);
        out.push(self.flags);
        assert(out@ =~= self.spec_bytes());
        out
    }
}

impl OboModifyV1 {
    pub open spec fn spec_bytes(self) -> Seq<u8> {
        le_bytes(self.order_id as int, 8) + le_bytes(as_unsigned_64(self.new_price_e8 as int), 8) + le_bytes(
            self.new_qty as int,
            8,
        ) + seq![self.flags]
    }

    /// The 25 bytes of the payload: order id, new price, new quantity and flags.
    pub fn to_bytes(&self) -> (b: Vec<u8>)
        ensures
            b@ == self.spec_bytes(),
    {
        let mut out: Vec<u8> = Vec::new();
        put_le(&mut out, self.order_id, 8);
        put_le(&mut out, i64_to_u64(self.new_price_e8), 8);
        put_le(&mut out, self.new_qty, 8);
        out.push(self.flags);
        assert(out@ =~= self.spec_bytes());
        out
    }
}

impl OboCancelV1 {
    pub open spec fn spec_bytes(self) -> Seq<u8> {
        le_bytes(self.order_id as int, 8) + le_bytes(self.qty_cxl as int, 8) + seq![self.reason]
    }

    /// The 17 bytes of the payload: order id, cancelled quantity and reason.
    pub fn to_bytes(&self) -> (b: Vec<u8>)
        ensures
            b@ == self.spec_bytes(),
    {
        let mut out: Vec<u8> = Vec::new();
        put_le(&mut out, self.order_id, 8);
        put_le(&mut out, self.qty_cxl, 8);
        out.push(self.reason);
        assert(out@ =~= self.spec_bytes());
        out
    }
}

impl OboExecuteV1 {
    pub open spec fn spec_bytes(self) -> Seq<u8> {
        le_bytes(self.maker_order_id as int, 8) + le_bytes(self.trade_qty as int, 8) + le_bytes(
            as_unsigned_64(self.trade_price_e8 as int),
            8,
        ) + seq![self.aggressor_side] + le_bytes(self.match_id as int, 8)
    }

    /// The 33 bytes of the payload: maker order id, traded quantity, trade
    /// price, aggressor side and match id.
    pub fn to_bytes(&self) -> (b: Vec<u8>)
        ensures
            b@ == self.spec_bytes(),
    {
        let mut out: Vec<u8> = Vec::new();
        put_le(&mut out, self.maker_order_id, 8);
        put_le(&mut out, self.trade_qty, 8);
        put_le(&mut out, i64_to_u64(self.trade_price_e8), 8);
        out.push(self.aggressor_side);
        put_le(&mut out, self.match_id, 8);
        assert(out@ =~= self.spec_bytes());
        out
    }
}

impl FullBookSnapshotHdrV1 {
    pub open spec fn spec_bytes(self) -> Seq<u8> {
        le_bytes(self.level_count as int, 4) + le_bytes(self.total_orders as int, 4)
    }

    /// The 8 bytes of the payload: level count and order count.
    pub fn to_bytes(&self) -> (b: Vec<u8>)
        ensures
            b@ == self.spec_bytes(),
    {
        let mut out: Vec<u8> = Vec::new();
        put_le(&mut out, self.level_count as u64, 4);
        put_le(&mut out, self.total_orders as u64, 4);
        assert(out@ =~= self.spec_bytes());
        out
    }
}

/// The frame of a payload: the header with `payload_len` the payload's
/// length (its low 32 bits), then the payload.
pub open spec fn spec_frame(
    message_type: u16,
    channel_id: u32,
    instrument_id: u64,
    sequence: u64,
    send_time_ns: u64,
    payload: Seq<u8>,
) -> Seq<u8> {
    FrameHeaderV1 {
        magic: choose|m: [u8; 4]| m@ == spec_magic(),
        version: VERSION_V1,
        codec: RAW_V1,
        message_type,
        channel_id,
        instrument_id,
        sequence,
        send_time_ns,
        payload_len: (payload.len() % 0x1_0000_0000) as u32,
    }.spec_bytes() + payload
}

/// Where the send time lies in a frame: the eight bytes from this offset on.
pub const SEND_TIME_OFFSET: usize = 28;

/// `a` and `b` are the same frame but for the time it was sent: they are
/// equally long and agree in every byte outside the send-time field.
pub open spec fn same_but_time(a: Seq<u8>, b: Seq<u8>) -> bool {
    &&& a.len() == b.len()
    &&& forall|i: int| 0 <= i < a.len() && !(SEND_TIME_OFFSET <= i < SEND_TIME_OFFSET + 8) ==> a[i] == b[i]
}

/// The time a frame is sent at changes its send-time field and nothing else.
pub proof fn lemma_frame_but_time(
    message_type: u16,
    channel_id: u32,
    instrument_id: u64,
    sequence: u64,
    t1: u64,
    t2: u64,
    payload: Seq<u8>,
)
    ensures
        same_but_time(
            spec_frame(message_type, channel_id, instrument_id, sequence, t1, payload),
            spec_frame(message_type, channel_id, instrument_id, sequence, t2, payload),
        ),
{
    let m = choose|m: [u8; 4]| m@ == spec_magic();
    let head = m@ + seq![VERSION_V1, RAW_V1] + le_bytes(message_type as int, 2) + le_bytes(channel_id as int, 4)
        + le_bytes(instrument_id as int, 8) + le_bytes(sequence as int, 8);
    let plen = le_bytes(((payload.len() % 0x1_0000_0000) as u32) as int, 4);
    lemma_le_bytes_len(message_type as int, 2);
    lemma_le_bytes_len(channel_id as int, 4);
    lemma_le_bytes_len(instrument_id as int, 8);
    lemma_le_bytes_len(sequence as int, 8);
    lemma_le_bytes_len(t1 as int, 8);
    lemma_le_bytes_len(t2 as int, 8);
    assert(m@.len() == 4);
    assert(head.len() == SEND_TIME_OFFSET);
    let f1 = spec_frame(message_type, channel_id, instrument_id, sequence, t1, payload);
    let f2 = spec_frame(message_type, channel_id, instrument_id, sequence, t2, payload);
    assert(f1 =~= head + le_bytes(t1 as int, 8) + plen + payload);
    assert(f2 =~= head + le_bytes(t2 as int, 8) + plen + payload);
}

/// Builds the frame of `payload`.
pub fn encode_frame(
    message_type: u16,
    channel_id: u32,
    instrument_id: u64,
    sequence: u64,
    send_time_ns: u64,
    payload: &[u8],
) -> (frame: Vec<u8>)
    ensures
        frame@ == spec_frame(message_type, channel_id, instrument_id, sequence, send_time_ns, payload@),
        frame@.len() == HEADER_LEN + payload@.len(),
{
    let hdr = FrameHeaderV1::new(
        message_type,
        channel_id,
        instrument_id,
        sequence,
        send_time_ns,
        ((payload.len() as u64) % 0x1_0000_0000) as u32,
    );
    let mut v = hdr.to_bytes();
    let mut i: usize = 0;
    let ghost head = v@;
    assert(v@ =~= head + payload@.take(0));
    while i < payload.len()
        invariant
            i <= payload@.len(),
            v@ == head + payload@.take(i as int),
        decreases payload@.len() - i,
    {
        v.push(payload[i]);
        i += 1;
        assert(v@ =~= head + payload@.take(i as int));
    }
    proof {
        assert(payload@.take(i as int) =~= payload@);
        let m = choose|m: [u8; 4]| m@ == spec_magic();
        assert(hdr.magic@ == spec_magic());
        assert(m@ == spec_magic());
    }
    v
}

/// Builds a frame of the order-by-order channel.
pub fn build_frame(msg_ty: u16, payload: &[u8], instrument_id: u64, sequence: u64, send_time_ns: u64) -> (frame:
    Vec<u8>)
    ensures
        frame@ == spec_frame(msg_ty, OBO_L3, instrument_id, sequence, send_time_ns, payload@),
        frame@.len() == HEADER_LEN + payload@.len(),
{
    encode_frame(msg_ty, OBO_L3, instrument_id, sequence, send_time_ns, payload)
}

} // verus!
