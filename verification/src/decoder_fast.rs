//! Decoder for compact stop-bit encoded order flow.
//!
//! A payload is a run of messages. Each message is a presence map, a template
//! id and a body length, all stop-bit integers, followed by the body. A
//! stop-bit integer takes seven bits from each byte, least significant group
//! first; a set high bit says that another byte follows. Signed fields are
//! zigzag encoded.
use vstd::prelude::*;
use vstd::slice::slice_subrange;
use crate::parser::{with_event, Event, MessageDecoder, Side};

verus! {

/// Most bytes read for a presence map.
pub const PMAP_MAX_BYTES: usize = 9;

/// Most bytes read for a stop-bit integer.
pub const SBI_MAX_BYTES: usize = 10;

/// Number of bytes that the stop-bit integer at `off` takes when at most
/// `max` bytes are read: up to and including the first byte without the
/// continuation bit, as far as the bytes go.
pub open spec fn varint_len(b: Seq<u8>, off: int, max: int) -> int
    decreases max,
{
    if max <= 0 || off < 0 || off >= b.len() {
        0
    } else if b[off] & 0x80 == 0 {
        1
    } else {
        1 + varint_len(b, off + 1, max - 1)
    }
}

/// The value of the first `n` bytes of the stop-bit integer at `off`: byte
/// `i` contributes its low seven bits at bit position `7 * i`; bits beyond
/// the 64th are lost.
pub open spec fn varint_value(b: Seq<u8>, off: int, n: int) -> u64
    decreases n,
{
    if n <= 0 {
        0
    } else {
        varint_value(b, off, n - 1) | (((b[off + n - 1] & 0x7f) as u64) << ((7 * (n - 1)) as u64))
    }
}

/// The stop-bit integer at `off`.
pub open spec fn sbi_at(b: Seq<u8>, off: int) -> u64 {
    varint_value(b, off, varint_len(b, off, SBI_MAX_BYTES as int))
}

/// Number of bytes of the stop-bit integer at `off`.
pub open spec fn sbi_len(b: Seq<u8>, off: int) -> int {
    varint_len(b, off, SBI_MAX_BYTES as int)
}

/// The signed integer that `u` encodes: even numbers are the non-negative
/// integers, odd numbers the negative ones.
pub open spec fn zigzag(u: u64) -> i64 {
    if u % 2 == 0 {
        (u / 2) as i64
    } else {
        (-(u / 2) - 1) as i64
    }
}

/// The low 32 bits of `v`.
pub open spec fn low32(v: u64) -> u32 {
    (v % 0x1_0000_0000) as u32
}

/// The side a raw side byte stands for: zero is a bid.
pub open spec fn side_of(byte: u8) -> Side {
    if byte == 0 {
        Side::Bid
    } else {
        Side::Ask
    }
}

/// The event of an add body: order id, instrument, a raw side byte, price
/// and quantity. A missing field yields no event.
pub open spec fn add_event(body: Seq<u8>) -> Option<Event> {
    let n1 = sbi_len(body, 0);
    let n2 = sbi_len(body, n1);
    let o = n1 + n2;
    let n3 = sbi_len(body, o + 1);
    let n4 = sbi_len(body, o + 1 + n3);
    if n1 == 0 || n2 == 0 || o >= body.len() || n3 == 0 || n4 == 0 {
        None
    } else {
        Some(
            Event::Add {
                order_id: sbi_at(body, 0),
                instr: low32(sbi_at(body, n1)),
                px: zigzag(sbi_at(body, o + 1)),
                qty: zigzag(sbi_at(body, o + 1 + n3)),
                side: side_of(body[o]),
            },
        )
    }
}

/// The event of a modify body: order id and new quantity; a missing
/// quantity reads as zero.
pub open spec fn mod_event(body: Seq<u8>) -> Option<Event> {
    let n1 = sbi_len(body, 0);
    if n1 == 0 {
        None
    } else {
        Some(Event::Mod { order_id: sbi_at(body, 0), qty: zigzag(sbi_at(body, n1)) })
    }
}

/// The event of a delete body: the order id; a missing id reads as zero.
pub open spec fn del_event(body: Seq<u8>) -> Option<Event> {
    Some(Event::Del { order_id: sbi_at(body, 0) })
}

/// The event of a trade body: instrument, price, quantity, then the maker
/// order id if bit 0 of the presence map is set, then a raw taker side byte
/// if bit 1 is set and a byte is left.
pub open spec fn trade_event(body: Seq<u8>, pmap: u64) -> Option<Event> {
    let n1 = sbi_len(body, 0);
    let n2 = sbi_len(body, n1);
    let n3 = sbi_len(body, n1 + n2);
    let o = n1 + n2 + n3;
    let has_maker = pmap & 0x1 != 0;
    let n4 = if has_maker {
        sbi_len(body, o)
    } else {
        0
    };
    let o2 = o + n4;
    if n1 == 0 || n2 == 0 || n3 == 0 || (has_maker && n4 == 0) {
        None
    } else {
        Some(
            Event::Trade {
                instr: low32(sbi_at(body, 0)),
                px: zigzag(sbi_at(body, n1)),
                qty: zigzag(sbi_at(body, n1 + n2)),
                maker_order_id: if has_maker {
                    Some(sbi_at(body, o))
                } else {
                    None
                },
                taker_side: if pmap & 0x2 != 0 && o2 < body.len() {
                    Some(side_of(body[o2]))
                } else {
                    None
                },
            },
        )
    }
}

/// The event of one message, if it has one.
pub open spec fn message_event(template: u64, pmap: u64, body: Seq<u8>) -> Option<Event> {
    if template == 1 {
        add_event(body)
    } else if template == 2 {
        mod_event(body)
    } else if template == 3 {
        del_event(body)
    } else if template == 4 {
        trade_event(body, pmap)
    } else {
        None
    }
}

/// The events of the messages that start at `off`, in order. A message whose
/// template id, length or body does not fit ends the payload.
pub open spec fn events_from(b: Seq<u8>, off: int) -> Seq<Event>
    decreases b.len() - off,
{
    if off < 0 || off >= b.len() {
        Seq::empty()
    } else {
        let n1 = varint_len(b, off, PMAP_MAX_BYTES as int);
        let pmap = varint_value(b, off, n1);
        let n2 = sbi_len(b, off + n1);
        let n3 = sbi_len(b, off + n1 + n2);
        let body_len = sbi_at(b, off + n1 + n2);
        let start = off + n1 + n2 + n3;
        if n1 <= 0 || n2 <= 0 || n3 <= 0 || start + body_len > b.len() {
            Seq::empty()
        } else {
            with_event(
                Seq::empty(),
                message_event(sbi_at(b, off + n1), pmap, b.subrange(start, start + body_len)),
            ) + events_from(b, start + body_len)
        }
    }
}

/// The events of a payload.
pub open spec fn decoded(payload: Seq<u8>) -> Seq<Event> {
    events_from(payload, 0)
}

/// A stop-bit integer takes at least one byte where there is one, never more
/// than `max`, and never more than the bytes that are left.
pub proof fn lemma_varint_len_bounds(b: Seq<u8>, off: int, max: int)
    requires
        0 <= off,
        0 <= max,
    ensures
        0 <= varint_len(b, off, max) <= max,
        off <= b.len() ==> off + varint_len(b, off, max) <= b.len(),
        off < b.len() && max > 0 ==> varint_len(b, off, max) >= 1,
    decreases max,
{
    if max > 0 && off < b.len() && b[off] & 0x80 != 0 {
        lemma_varint_len_bounds(b, off + 1, max - 1);
    }
}

/// The messages from `off` on yield at most one event per 3 bytes left.
pub proof fn lemma_events_bounded(b: Seq<u8>, off: int)
    requires
        0 <= off <= b.len(),
    ensures
        3 * events_from(b, off).len() <= b.len() - off,
    decreases b.len() - off,
{
    if off < b.len() {
        let n1 = varint_len(b, off, PMAP_MAX_BYTES as int);
        lemma_varint_len_bounds(b, off, PMAP_MAX_BYTES as int);
        let n2 = sbi_len(b, off + n1);
        lemma_varint_len_bounds(b, off + n1, SBI_MAX_BYTES as int);
        let n3 = sbi_len(b, off + n1 + n2);
        lemma_varint_len_bounds(b, off + n1 + n2, SBI_MAX_BYTES as int);
        let body_len = sbi_at(b, off + n1 + n2);
        let start = off + n1 + n2 + n3;
        if n1 > 0 && n2 > 0 && n3 > 0 && start + body_len <= b.len() {
            lemma_events_bounded(b, start + body_len);
        }
    }
}

/// A payload never yields more events than it has bytes.
pub proof fn lemma_decoded_bounded(payload: Seq<u8>)
    ensures
        decoded(payload).len() <= payload.len(),
{
    lemma_events_bounded(payload, 0);
}

/// Reads a stop-bit integer of at most `max` bytes at `off`; returns its
/// value and the number of bytes it takes.
fn read_varint(b: &[u8], off: usize, max: usize) -> (r: (u64, usize))
    requires
        max <= 10,
    ensures
        r.1 == varint_len(b@, off as int, max as int),
        r.0 == varint_value(b@, off as int, r.1 as int),
        r.1 <= max,
        off <= b.len() ==> off + r.1 <= b.len(),
        off < b.len() && max > 0 ==> r.1 >= 1,
{
    let mut v: u64 = 0;
    let mut consumed: usize = 0;
    proof {
        lemma_varint_len_bounds(b@, off as int, max as int);
    }
    while consumed < max && off < b.len() && consumed < b.len() - off
        invariant_except_break
            varint_len(b@, off as int, max as int) == consumed + varint_len(
                b@,
                off + consumed,
                max - consumed,
            ),
        invariant
            max <= 10,
            consumed <= max,
            off <= b.len() ==> off + consumed <= b.len(),
            v == varint_value(b@, off as int, consumed as int),
        ensures
            consumed == varint_len(b@, off as int, max as int),
            v == varint_value(b@, off as int, consumed as int),
            consumed <= max,
        decreases max - consumed,
    {
        let byte = b[off + consumed];
        let shift: u64 = 7 * (consumed as u64);
        v = v | (((byte & 0x7f) as u64) << shift);
        consumed += 1;
        if (byte & 0x80) == 0 {
            break;
        }
    }
    (v, consumed)
}

/// Reads the presence map at `off`.
pub fn read_pmap(b: &[u8], off: usize) -> (r: (u64, usize))
    ensures
        r.1 == varint_len(b@, off as int, PMAP_MAX_BYTES as int),
        r.0 == varint_value(b@, off as int, r.1 as int),
        r.1 <= PMAP_MAX_BYTES,
        off <= b.len() ==> off + r.1 <= b.len(),
        off < b.len() ==> r.1 >= 1,
{
    read_varint(b, off, PMAP_MAX_BYTES)
}

/// Reads the stop-bit integer at `off`.
pub fn read_sbi_u64(b: &[u8], off: usize) -> (r: (u64, usize))
    ensures
        r.1 == sbi_len(b@, off as int),
        r.0 == sbi_at(b@, off as int),
        r.1 <= SBI_MAX_BYTES,
        off <= b.len() ==> off + r.1 <= b.len(),
        off < b.len() ==> r.1 >= 1,
{
    read_varint(b, off, SBI_MAX_BYTES)
}

/// Decodes a zigzag encoded integer.
pub fn unzigzag(u: u64) -> (r: i64)
    ensures
        r == zigzag(u),
{
    let half = (u / 2) as i64;
    if u % 2 == 0 {
        half
    } else {
        -half - 1
    }
}

fn side_from(byte: u8) -> (s: Side)
    ensures
        s == side_of(byte),
{
    if byte == 0 {
        Side::Bid
    } else {
        Side::Ask
    }
}

/// Decodes an add body and appends its event.
pub fn on_add(body: &[u8], out: &mut Vec<Event>)
    ensures
        final(out)@ == with_event(old(out)@, add_event(body@)),
{
    let (order_id, n1) = read_sbi_u64(body, 0);
    if n1 == 0 {
        return ;
    }
    let (instr, n2) = read_sbi_u64(body, n1);
    if n2 == 0 {
        return ;
    }
    let o = n1 + n2;
    if o >= body.len() {
        return ;
    }
    let side = side_from(body[o]);
    let (uv_px, n3) = read_sbi_u64(body, o + 1);
    if n3 == 0 {
        return ;
    }
    let (uv_qty, n4) = read_sbi_u64(body, o + 1 + n3);
    if n4 == 0 {
        return ;
    }
    out.push(
        Event::Add {
            order_id,
            instr: (instr % 0x1_0000_0000) as u32,
            px: unzigzag(uv_px),
            qty: unzigzag(uv_qty),
            side,
        },
    );
}

/// Decodes a modify body and appends its event.
pub fn on_mod(body: &[u8], out: &mut Vec<Event>)
    ensures
        final(out)@ == with_event(old(out)@, mod_event(body@)),
{
    let (order_id, n1) = read_sbi_u64(body, 0);
    if n1 == 0 {
        return ;
    }
    let (uv_qty, _n2) = read_sbi_u64(body, n1);
    out.push(Event::Mod { order_id, qty: unzigzag(uv_qty) });
}

/// Decodes a delete body and appends its event.
pub fn on_del(body: &[u8], out: &mut Vec<Event>)
    ensures
        final(out)@ == with_event(old(out)@, del_event(body@)),
{
    let (order_id, _n1) = read_sbi_u64(body, 0);
    out.push(Event::Del { order_id });
}

/// Decodes a trade body and appends its event.
pub fn on_trade(body: &[u8], out: &mut Vec<Event>, pmap: u64)
    ensures
        final(out)@ == with_event(old(out)@, trade_event(body@, pmap)),
{
    let (instr, n1) = read_sbi_u64(body, 0);
    if n1 == 0 {
        return ;
    }
    let (uv_px, n2) = read_sbi_u64(body, n1);
    if n2 == 0 {
        return ;
    }
    let (uv_qty, n3) = read_sbi_u64(body, n1 + n2);
    if n3 == 0 {
        return ;
    }
    let mut o = n1 + n2 + n3;
    let mut maker_order_id: Option<u64> = None;
    if pmap & 0x1 != 0 {
        let (oid, n4) = read_sbi_u64(body, o);
        if n4 == 0 {
            return ;
        }
        o = o + n4;
        maker_order_id = Some(oid);
    }
    let mut taker_side: Option<Side> = None;
    if pmap & 0x2 != 0 && o < body.len() {
        taker_side = Some(side_from(body[o]));
    }
    out.push(
        Event::Trade {
            instr: (instr % 0x1_0000_0000) as u32,
            px: unzigzag(uv_px),
            qty: unzigzag(uv_qty),
            maker_order_id,
            taker_side,
        },
    );
}

/// The stateless decoder of this format.
#[derive(Debug, Default, Clone, Copy)]
pub struct FastEmdiDecoder;

impl FastEmdiDecoder {
    pub fn new() -> (d: Self) {
        FastEmdiDecoder
    }

    /// Appends the events of `payload` to `out`.
    pub fn decode_messages(&self, payload: &[u8], out: &mut Vec<Event>)
        ensures
            final(out)@ == old(out)@ + decoded(payload@),
            final(out)@.len() <= old(out)@.len() + payload@.len(),
    {
        let ghost b = payload@;
        let ghost out0 = out@;
        let mut off: usize = 0;
        proof {
            lemma_decoded_bounded(b);
            assert(out0 + decoded(b) =~= out@ + events_from(b, 0));
        }
        while off < payload.len()
            invariant
                off <= payload.len(),
                b == payload@,
                out0 + decoded(b) == out@ + events_from(b, off as int),
            ensures
                out@ == out0 + decoded(b),
            decreases payload.len() - off,
        {
            let (pmap, n1) = read_pmap(payload, off);
            let (tmpl, n2) = read_sbi_u64(payload, off + n1);
            if n2 == 0 {
                proof {
                    assert(out@ + Seq::<Event>::empty() =~= out@);
                }
                break;
            }
            let (body_len, n3) = read_sbi_u64(payload, off + n1 + n2);
            if n3 == 0 {
                proof {
                    assert(out@ + Seq::<Event>::empty() =~= out@);
                }
                break;
            }
            let start = off + n1 + n2 + n3;
            if body_len > (payload.len() - start) as u64 {
                proof {
                    assert(out@ + Seq::<Event>::empty() =~= out@);
                }
                break;
            }
            let end = start + body_len as usize;
            let body = slice_subrange(payload, start, end);
            let ghost before = out@;
            if tmpl == 1 {
                on_add(body, out);
            } else if tmpl == 2 {
                on_mod(body, out);
            } else if tmpl == 3 {
                on_del(body, out);
            } else if tmpl == 4 {
                on_trade(body, out, pmap);
            }
            proof {
                let e = message_event(tmpl, pmap, body@);
                assert(out@ == with_event(before, e));
                let rest = events_from(b, end as int);
                assert(before + (with_event(Seq::empty(), e) + rest) =~= with_event(before, e) + rest);
            }
            off = end;
        }
        proof {
            assert(out@ + Seq::<Event>::empty() =~= out@);
        }
    }
}

impl MessageDecoder for FastEmdiDecoder {
    open spec fn spec_decoded(&self, payload: Seq<u8>) -> Seq<Event> {
        decoded(payload)
    }

    fn decode_messages(&mut self, payload: &[u8], out: &mut Vec<Event>) {
        FastEmdiDecoder::decode_messages(self, payload, out);
    }
}

} // verus!
