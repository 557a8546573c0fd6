//! Decoder for little-endian SBE-framed order flow.
//!
//! A payload is a run of messages. Each message is an 8-byte header (block
//! length, template id, schema id and version, 16 bits each) followed by
//! `block length` body bytes. A header or body that does not fit ends the
//! payload; a body too short for its template, or an unknown template, yields
//! no event.
use vstd::prelude::*;
use vstd::slice::slice_subrange;
use crate::parser::{with_event, Event, MessageDecoder, Side};
use crate::wire::{as_signed_64, le_i64_at, le_u16_at, le_u32_at, le_u64_at, le_value};

verus! {

/// Template id of an added order.
pub const TEMPLATE_ADD: u16 = 1001;

/// Template id of a modified order.
pub const TEMPLATE_MODIFY: u16 = 1002;

/// Template id of a deleted order.
pub const TEMPLATE_DELETE: u16 = 1003;

/// Template id of a trade.
pub const TEMPLATE_TRADE: u16 = 1004;

/// Length of the message header in bytes.
pub const HEADER_LEN: usize = 8;

/// The event of an add body: order id (8 bytes), instrument (4), side (1,
/// zero for a bid), price (8) and quantity (8).
pub open spec fn add_event(body: Seq<u8>) -> Option<Event> {
    if body.len() < 29 {
        None
    } else {
        Some(
            Event::Add {
                order_id: le_value(body, 0, 8) as u64,
                instr: le_value(body, 8, 4) as u32,
                px: as_signed_64(le_value(body, 13, 8)) as i64,
                qty: as_signed_64(le_value(body, 21, 8)) as i64,
                side: if body[12] == 0 {
                    Side::Bid
                } else {
                    Side::Ask
                },
            },
        )
    }
}

/// The event of a modify body: order id (8 bytes) and the new quantity (8).
pub open spec fn mod_event(body: Seq<u8>) -> Option<Event> {
    if body.len() < 16 {
        None
    } else {
        Some(
            Event::Mod {
                order_id: le_value(body, 0, 8) as u64,
                qty: as_signed_64(le_value(body, 8, 8)) as i64,
            },
        )
    }
}

/// The event of a delete body: the order id (8 bytes).
pub open spec fn del_event(body: Seq<u8>) -> Option<Event> {
    if body.len() < 8 {
        None
    } else {
        Some(Event::Del { order_id: le_value(body, 0, 8) as u64 })
    }
}

/// The event of a trade body: instrument (4 bytes), price (8), quantity (8),
/// maker order id (8) and taker side (1: zero for a bid, one for an ask,
/// anything else for unknown).
pub open spec fn trade_event(body: Seq<u8>) -> Option<Event> {
    if body.len() < 29 {
        None
    } else {
        Some(
            Event::Trade {
                instr: le_value(body, 0, 4) as u32,
                px: as_signed_64(le_value(body, 4, 8)) as i64,
                qty: as_signed_64(le_value(body, 12, 8)) as i64,
                maker_order_id: Some(le_value(body, 20, 8) as u64),
                taker_side: if body[28] == 0 {
                    Some(Side::Bid)
                } else if body[28] == 1 {
                    Some(Side::Ask)
                } else {
                    None
                },
            },
        )
    }
}

/// The event of one message, if it has one.
pub open spec fn message_event(template: int, body: Seq<u8>) -> Option<Event> {
    if template == TEMPLATE_ADD {
        add_event(body)
    } else if template == TEMPLATE_MODIFY {
        mod_event(body)
    } else if template == TEMPLATE_DELETE {
        del_event(body)
    } else if template == TEMPLATE_TRADE {
        trade_event(body)
    } else {
        None
    }
}

/// The events of the messages that start at `off`, in order.
pub open spec fn events_from(b: Seq<u8>, off: int) -> Seq<Event>
    decreases b.len() - off,
{
    if off < 0 || off + 8 > b.len() {
        Seq::empty()
    } else {
        let block_len = le_value(b, off, 2);
        let template = le_value(b, off + 2, 2);
        let start = off + 8;
        if block_len < 0 || start + block_len > b.len() {
            Seq::empty()
        } else {
            with_event(Seq::empty(), message_event(template, b.subrange(start, start + block_len)))
                + events_from(b, start + block_len)
        }
    }
}

/// The events of a payload.
pub open spec fn decoded(payload: Seq<u8>) -> Seq<Event> {
    events_from(payload, 0)
}

/// The messages from `off` on yield at most one event per 8 bytes left.
pub proof fn lemma_events_bounded(b: Seq<u8>, off: int)
    requires
        0 <= off <= b.len(),
    ensures
        8 * events_from(b, off).len() <= b.len() - off,
    decreases b.len() - off,
{
    if off + 8 <= b.len() {
        let block_len = le_value(b, off, 2);
        crate::wire::lemma_le_value_bounds(b, off);
        let start = off + 8;
        if start + block_len <= b.len() {
            lemma_events_bounded(b, start + block_len);
        }
    }
}

/// A payload never yields more events than it has bytes.
pub proof fn lemma_decoded_bounded(payload: Seq<u8>)
    ensures
        decoded(payload).len() <= payload.len(),
{
    lemma_events_bounded(payload, 0);
}

/// The stateless decoder of this format.
#[derive(Debug, Default, Clone, Copy)]
pub struct EobiSbeDecoder;

/// Decodes an add body and appends its event.
pub fn decode_add(body: &[u8], out: &mut Vec<Event>)
    ensures
        final(out)@ == with_event(old(out)@, add_event(body@)),
{
    if body.len() < 29 {
        return ;
    }
    let order_id = le_u64_at(body, 0);
    let instr = le_u32_at(body, 8);
    let side = if body[12] == 0 {
        Side::Bid
    } else {
        Side::Ask
    };
    let px = le_i64_at(body, 13);
    let qty = le_i64_at(body, 21);
    out.push(Event::Add { order_id, instr, px, qty, side });
}

/// Decodes a modify body and appends its event.
pub fn decode_mod(body: &[u8], out: &mut Vec<Event>)
    ensures
        final(out)@ == with_event(old(out)@, mod_event(body@)),
{
    if body.len() < 16 {
        return ;
    }
    let order_id = le_u64_at(body, 0);
    let qty = le_i64_at(body, 8);
    out.push(Event::Mod { order_id, qty });
}

/// Decodes a delete body and appends its event.
pub fn decode_del(body: &[u8], out: &mut Vec<Event>)
    ensures
        final(out)@ == with_event(old(out)@, del_event(body@)),
{
    if body.len() < 8 {
        return ;
    }
    let order_id = le_u64_at(body, 0);
    out.push(Event::Del { order_id });
}

/// Decodes a trade body and appends its event.
pub fn decode_trade(body: &[u8], out: &mut Vec<Event>)
    ensures
        final(out)@ == with_event(old(out)@, trade_event(body@)),
{
    if body.len() < 29 {
        return ;
    }
    let instr = le_u32_at(body, 0);
    let px = le_i64_at(body, 4);
    let qty = le_i64_at(body, 12);
    let maker_order_id = le_u64_at(body, 20);
    let b = body[28];
    let taker_side = if b == 0 {
        Some(Side::Bid)
    } else if b == 1 {
        Some(Side::Ask)
    } else {
        None
    };
    out.push(Event::Trade { instr, px, qty, maker_order_id: Some(maker_order_id), taker_side });
}

impl EobiSbeDecoder {
    pub fn new() -> (d: Self) {
        EobiSbeDecoder
    }

    /// Appends the events of `payload` to `out`.
    pub fn decode_messages(&self, payload: &[u8], out: &mut Vec<Event>)
        ensures
            final(out)@ == old(out)@ + decoded(payload@),
            final(out)@.len() <= old(out)@.len() + payload@.len(),
    {
        let ghost b = payload@;
        let ghost out0 = out@;
        let mut off: usize = 0;
        proof {
            lemma_decoded_bounded(b);
            assert(out0 + decoded(b) =~= out@ + events_from(b, 0));
        }
        while payload.len() - off >= HEADER_LEN
            invariant
                off <= payload.len(),
                b == payload@,
                out0 + decoded(b) == out@ + events_from(b, off as int),
            ensures
                out@ == out0 + decoded(b),
            decreases payload.len() - off,
        {
            let block_len = le_u16_at(payload, off) as usize;
            let template_id = le_u16_at(payload, off + 2);
            let start = off + HEADER_LEN;
            if block_len > payload.len() - start {
                proof {
                    assert(out@ + Seq::<Event>::empty() =~= out@);
                }
                break;
            }
            let body = slice_subrange(payload, start, start + block_len);
            let ghost before = out@;
            if template_id == TEMPLATE_ADD {
                decode_add(body, out);
            } else if template_id == TEMPLATE_MODIFY {
                decode_mod(body, out);
            } else if template_id == TEMPLATE_DELETE {
                decode_del(body, out);
            } else if template_id == TEMPLATE_TRADE {
                decode_trade(body, out);
            }
            proof {
                let e = message_event(template_id as int, body@);
                assert(out@ == with_event(before, e));
                let rest = events_from(b, start + block_len);
                assert(before + (with_event(Seq::empty(), e) + rest) =~= with_event(before, e) + rest);
            }
            off = start + block_len;
        }
        proof {
            assert(out@ + Seq::<Event>::empty() =~= out@);
        }
    }
}

impl MessageDecoder for EobiSbeDecoder {
    open spec fn spec_decoded(&self, payload: Seq<u8>) -> Seq<Event> {
        decoded(payload)
    }

    fn decode_messages(&mut self, payload: &[u8], out: &mut Vec<Event>) {
        EobiSbeDecoder::decode_messages(self, payload, out);
    }
}

} // verus!
