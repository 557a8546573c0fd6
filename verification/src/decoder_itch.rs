//! Decoder for big-endian ITCH-style order flow.
//!
//! A payload is a run of messages, each a 16-bit length, a type byte and a
//! body of `length - 1` bytes. The venue reports executions and cancels as
//! reductions of an order; the decoder remembers each order it has seen and
//! turns the reductions into events that carry the remaining quantity.
use vstd::prelude::*;
use vstd::slice::slice_subrange;
use crate::parser::{opposite, spec_opposite, Event, MessageDecoder, Side};
use crate::table::{
    locate_symbols, order_states, orders_get, orders_insert, orders_new, orders_remove, symbols_insert,
    symbols_new, Table,
};
use crate::wire::{be_u16_at, be_u32_at, be_u64_at, be_value};

verus! {

/// What the decoder remembers of a resting order.
#[derive(Debug, Clone, Copy, PartialEq, Eq, Structural)]
pub struct OrderState {
    pub instr: u32,
    pub qty: i64,
    pub px: i64,
    pub side: Side,
}

/// The decoder's state as a mathematical value.
pub struct ItchView {
    pub orders: Map<u64, OrderState>,
    pub symbols: Map<u16, [u8; 8]>,
}

/// A state together with the events emitted on the way to it.
pub struct Decoding {
    pub state: ItchView,
    pub events: Seq<Event>,
}

/// The side a side character stands for: `B` is a bid.
pub open spec fn side_of(ch: u8) -> Side {
    if ch == 66 {
        Side::Bid
    } else {
        Side::Ask
    }
}

/// What is left of `qty` after `taken` left it, never below zero.
pub open spec fn reduced(qty: i64, taken: i64) -> i64 {
    if qty > taken {
        (qty - taken) as i64
    } else {
        0
    }
}

/// The order reference that every order message carries at offset 10.
pub open spec fn order_ref(body: Seq<u8>) -> u64 {
    be_value(body, 10, 8) as u64
}

/// The stock locate at offset 0, which identifies the instrument.
pub open spec fn locate(body: Seq<u8>) -> u16 {
    be_value(body, 0, 2) as u16
}

/// The reduction of a known order by `taken`: the emitted event carries the
/// remaining quantity, or deletes the order when nothing remains.
pub open spec fn reduce(d: Decoding, id: u64, taken: i64, new_px: Option<i64>) -> Decoding {
    let s = d.state.orders[id];
    let left = reduced(s.qty, taken);
    if left > 0 {
        Decoding {
            state: ItchView {
                orders: d.state.orders.insert(
                    id,
                    OrderState {
                        qty: left,
                        px: match new_px {
                            Some(p) => p,
                            None => s.px,
                        },
                        ..s
                    },
                ),
                ..d.state
            },
            events: d.events.push(Event::Mod { order_id: id, qty: left }),
        }
    } else {
        Decoding {
            state: ItchView { orders: d.state.orders.remove(id), ..d.state },
            events: d.events.push(Event::Del { order_id: id }),
        }
    }
}

/// Add order, without (`A`) or with (`F`) attribution: locate, tracking (2
/// bytes), timestamp (6), order reference, side, shares (4), stock (8),
/// price (4) and, with attribution, four more bytes.
pub open spec fn after_add(d: Decoding, body: Seq<u8>, with_mpid: bool) -> Decoding {
    if body.len() < (if with_mpid {
        39int
    } else {
        35int
    }) {
        d
    } else {
        let id = order_ref(body);
        let st = OrderState {
            instr: locate(body) as u32,
            qty: be_value(body, 19, 4) as i64,
            px: be_value(body, 31, 4) as i64,
            side: side_of(body[18]),
        };
        Decoding {
            state: ItchView { orders: d.state.orders.insert(id, st), ..d.state },
            events: d.events.push(
                Event::Add { order_id: id, instr: st.instr, px: st.px, qty: st.qty, side: st.side },
            ),
        }
    }
}

/// Order executed (`E`, `C`): order reference, executed shares (4) and match
/// number (8). A known order is reduced; then a trade at the order's price is
/// reported, with the side facing the order as taker.
pub open spec fn after_exec(d: Decoding, body: Seq<u8>) -> Decoding {
    let id = order_ref(body);
    if body.len() < 30 || !d.state.orders.contains_key(id) {
        d
    } else {
        let s = d.state.orders[id];
        let executed = be_value(body, 18, 4) as i64;
        let r = reduce(d, id, executed, None);
        Decoding {
            events: r.events.push(
                Event::Trade {
                    instr: s.instr,
                    px: s.px,
                    qty: executed,
                    maker_order_id: Some(id),
                    taker_side: Some(spec_opposite(s.side)),
                },
            ),
            ..r
        }
    }
}

/// Order cancel (`X`): order reference and canceled shares (4). A known order is reduced.
pub open spec fn after_cancel(d: Decoding, body: Seq<u8>) -> Decoding {
    let id = order_ref(body);
    if body.len() < 22 || !d.state.orders.contains_key(id) {
        d
    } else {
        reduce(d, id, be_value(body, 18, 4) as i64, None)
    }
}

/// Order delete (`D`): the order reference. A known order is deleted.
pub open spec fn after_delete(d: Decoding, body: Seq<u8>) -> Decoding {
    let id = order_ref(body);
    if body.len() < 18 || !d.state.orders.contains_key(id) {
        d
    } else {
        Decoding {
            state: ItchView { orders: d.state.orders.remove(id), ..d.state },
            events: d.events.push(Event::Del { order_id: id }),
        }
    }
}

/// Order replace (`U`): original reference, new reference (8), shares (4)
/// and price (4). The original, if known, is deleted; the new order is added
/// on the original's side (a bid if the original is unknown).
pub open spec fn after_replace(d: Decoding, body: Seq<u8>) -> Decoding {
    if body.len() < 34 {
        d
    } else {
        let orig = order_ref(body);
        let id = be_value(body, 18, 8) as u64;
        let known = d.state.orders.contains_key(orig);
        let st = OrderState {
            instr: locate(body) as u32,
            qty: be_value(body, 26, 4) as i64,
            px: be_value(body, 30, 4) as i64,
            side: if known {
                d.state.orders[orig].side
            } else {
                Side::Bid
            },
        };
        let ev1 = if known {
            d.events.push(Event::Del { order_id: orig })
        } else {
            d.events
        };
        Decoding {
            state: ItchView { orders: d.state.orders.remove(orig).insert(id, st), ..d.state },
            events: ev1.push(
                Event::Add { order_id: id, instr: st.instr, px: st.px, qty: st.qty, side: st.side },
            ),
        }
    }
}

/// Trade (`P`): order reference, side, shares (4), stock (8), price (4) and
/// match number (8). A known maker is reduced and takes the trade's price
/// if it stays; the trade is reported either way. The taker is the side
/// facing a known maker, else the side the message names.
pub open spec fn after_trade(d: Decoding, body: Seq<u8>) -> Decoding {
    if body.len() < 43 {
        d
    } else {
        let id = order_ref(body);
        let shares = be_value(body, 19, 4) as i64;
        let price = be_value(body, 31, 4) as i64;
        if d.state.orders.contains_key(id) {
            let s = d.state.orders[id];
            let r = reduce(d, id, shares, Some(price));
            Decoding {
                events: r.events.push(
                    Event::Trade {
                        instr: s.instr,
                        px: price,
                        qty: shares,
                        maker_order_id: Some(id),
                        taker_side: Some(spec_opposite(s.side)),
                    },
                ),
                ..r
            }
        } else {
            Decoding {
                events: d.events.push(
                    Event::Trade {
                        instr: locate(body) as u32,
                        px: price,
                        qty: shares,
                        maker_order_id: Some(id),
                        taker_side: Some(side_of(body[18])),
                    },
                ),
                ..d
            }
        }
    }
}

/// Stock directory (`R`): the symbol at offset 10 is recorded under the locate.
pub open spec fn after_directory(d: Decoding, body: Seq<u8>) -> Decoding {
    if body.len() < 18 {
        d
    } else {
        Decoding {
            state: ItchView {
                symbols: d.state.symbols.insert(locate(body), symbol_at(body)),
                ..d.state
            },
            ..d
        }
    }
}

/// The eight symbol bytes of a stock directory body.
pub open spec fn symbol_at(body: Seq<u8>) -> [u8; 8] {
    choose|a: [u8; 8]| a@ == body.subrange(10, 18)
}

/// The effect of one message of type `typ`. Unknown types have none.
pub open spec fn after_message(d: Decoding, typ: u8, body: Seq<u8>) -> Decoding {
    if typ == 65 {
        after_add(d, body, false)
    } else if typ == 70 {
        after_add(d, body, true)
    } else if typ == 69 || typ == 67 {
        after_exec(d, body)
    } else if typ == 88 {
        after_cancel(d, body)
    } else if typ == 68 {
        after_delete(d, body)
    } else if typ == 85 {
        after_replace(d, body)
    } else if typ == 80 {
        after_trade(d, body)
    } else if typ == 82 {
        after_directory(d, body)
    } else {
        d
    }
}

/// The effect of the messages that start at `off`, in order. A length of
/// zero, or a message that does not fit, ends the payload.
pub open spec fn after_messages(d: Decoding, b: Seq<u8>, off: int) -> Decoding
    decreases b.len() - off,
{
    if off < 0 || off + 3 > b.len() {
        d
    } else {
        let msg_len = be_value(b, off, 2);
        if msg_len < 1 || off + 2 + msg_len > b.len() {
            d
        } else {
            after_messages(
                after_message(d, b[off + 2], b.subrange(off + 3, off + 2 + msg_len)),
                b,
                off + 2 + msg_len,
            )
        }
    }
}

/// The effect of a payload on a decoder in state `st`.
pub open spec fn decoding(st: ItchView, payload: Seq<u8>) -> Decoding {
    after_messages(Decoding { state: st, events: Seq::empty() }, payload, 0)
}

/// A message adds at most two events and never removes one.
pub proof fn lemma_message_bounded(d: Decoding, typ: u8, body: Seq<u8>)
    ensures
        d.events.len() <= after_message(d, typ, body).events.len() <= d.events.len() + 2,
        after_message(d, typ, body).events.subrange(0, d.events.len() as int) == d.events,
{
    let r = after_message(d, typ, body);
    assert(r.events.subrange(0, d.events.len() as int) =~= d.events);
}

/// The messages from `off` on add at most one event per byte left, after
/// the events already there.
pub proof fn lemma_messages_bounded(d: Decoding, b: Seq<u8>, off: int)
    requires
        0 <= off <= b.len(),
    ensures
        d.events.len() <= after_messages(d, b, off).events.len() <= d.events.len() + (b.len() - off),
        after_messages(d, b, off).events.subrange(0, d.events.len() as int) == d.events,
    decreases b.len() - off,
{
    let r = after_messages(d, b, off);
    if off + 3 <= b.len() {
        let msg_len = be_value(b, off, 2);
        crate::wire::lemma_be_value_bounds(b, off);
        if msg_len >= 1 && off + 2 + msg_len <= b.len() {
            let d1 = after_message(d, b[off + 2], b.subrange(off + 3, off + 2 + msg_len));
            lemma_message_bounded(d, b[off + 2], b.subrange(off + 3, off + 2 + msg_len));
            lemma_messages_bounded(d1, b, off + 2 + msg_len);
            assert(r.events.subrange(0, d.events.len() as int) =~= r.events.subrange(
                0,
                d1.events.len() as int,
            ).subrange(0, d.events.len() as int));
        } else {
            assert(r.events.subrange(0, d.events.len() as int) =~= d.events);
        }
    } else {
        assert(r.events.subrange(0, d.events.len() as int) =~= d.events);
    }
}

/// A payload never yields more events than it has bytes.
pub proof fn lemma_decoding_bounded(st: ItchView, payload: Seq<u8>)
    ensures
        decoding(st, payload).events.len() <= payload.len(),
{
    lemma_messages_bounded(Decoding { state: st, events: Seq::empty() }, payload, 0);
}

/// The stateful decoder of this format.
pub struct Itch50Decoder {
    orders: Table<u64, OrderState>,
    last_symbol_by_locate: Table<u16, [u8; 8]>,
}

fn side_from(ch: u8) -> (s: Side)
    ensures
        s == side_of(ch),
{
    if ch == 66 {
        Side::Bid
    } else {
        Side::Ask
    }
}

impl View for Itch50Decoder {
    type V = ItchView;

    closed spec fn view(&self) -> ItchView {
        ItchView { orders: order_states(self.orders), symbols: locate_symbols(self.last_symbol_by_locate) }
    }
}

impl Itch50Decoder {
    /// The decoder with the events it has appended to `out`, as a decoding.
    pub open spec fn with(self, out: Seq<Event>) -> Decoding {
        Decoding { state: self@, events: out }
    }

    /// A decoder that knows no order and no symbol.
    pub fn new() -> (d: Self)
        ensures
            d@.orders == Map::<u64, OrderState>::empty(),
            d@.symbols == Map::<u16, [u8; 8]>::empty(),
    {
        Itch50Decoder { orders: orders_new(), last_symbol_by_locate: symbols_new() }
    }

    /// What the decoder remembers of order `order_ref`, if it is known.
    pub fn order_state(&self, order_ref: u64) -> (r: Option<OrderState>)
        ensures
            r == if self@.orders.contains_key(order_ref) {
                Some(self@.orders[order_ref])
            } else {
                None
            },
    {
        orders_get(&self.orders, order_ref)
    }

    fn reduce_order(&mut self, id: u64, s: OrderState, taken: i64, new_px: Option<i64>, out: &mut Vec<Event>)
        requires
            old(self)@.orders.contains_key(id),
            old(self)@.orders[id] == s,
            taken >= 0,
        ensures
            final(self).with(final(out)@) == reduce(old(self).with(old(out)@), id, taken, new_px),
    {
        if s.qty > taken {
            let left = s.qty - taken;
            out.push(Event::Mod { order_id: id, qty: left });
            let px = match new_px {
                Some(p) => p,
                None => s.px,
            };
            orders_insert(&mut self.orders, id, OrderState { instr: s.instr, qty: left, px, side: s.side });
        } else {
            out.push(Event::Del { order_id: id });
            let _ = orders_remove(&mut self.orders, id);
        }
    }

    fn on_add(&mut self, body: &[u8], out: &mut Vec<Event>, with_mpid: bool)
        ensures
            final(self).with(final(out)@) == after_add(old(self).with(old(out)@), body@, with_mpid),
    {
        let min_len: usize = if with_mpid {
            39
        } else {
            35
        };
        if body.len() < min_len {
            return ;
        }
        let instr = be_u16_at(body, 0) as u32;
        let id = be_u64_at(body, 10);
        let side = side_from(body[18]);
        let shares = be_u32_at(body, 19) as i64;
        let price = be_u32_at(body, 31) as i64;
        out.push(Event::Add { order_id: id, instr, px: price, qty: shares, side });
        orders_insert(&mut self.orders, id, OrderState { instr, qty: shares, px: price, side });
    }

    fn on_exec(&mut self, body: &[u8], out: &mut Vec<Event>)
        ensures
            final(self).with(final(out)@) == after_exec(old(self).with(old(out)@), body@),
    {
        if body.len() < 30 {
            return ;
        }
        let id = be_u64_at(body, 10);
        let executed = be_u32_at(body, 18) as i64;
        match orders_get(&self.orders, id) {
            Some(s) => {
                self.reduce_order(id, s, executed, None, out);
                out.push(
                    Event::Trade {
                        instr: s.instr,
                        px: s.px,
                        qty: executed,
                        maker_order_id: Some(id),
                        taker_side: Some(opposite(s.side)),
                    },
                );
            },
            None => {},
        }
    }

    fn on_cancel(&mut self, body: &[u8], out: &mut Vec<Event>)
        ensures
            final(self).with(final(out)@) == after_cancel(old(self).with(old(out)@), body@),
    {
        if body.len() < 22 {
            return ;
        }
        let id = be_u64_at(body, 10);
        let canceled = be_u32_at(body, 18) as i64;
        match orders_get(&self.orders, id) {
            Some(s) => {
                self.reduce_order(id, s, canceled, None, out);
            },
            None => {},
        }
    }

    fn on_delete(&mut self, body: &[u8], out: &mut Vec<Event>)
        ensures
            final(self).with(final(out)@) == after_delete(old(self).with(old(out)@), body@),
    {
        if body.len() < 18 {
            return ;
        }
        let id = be_u64_at(body, 10);
        match orders_remove(&mut self.orders, id) {
            Some(_) => {
                out.push(Event::Del { order_id: id });
            },
            None => {
                assert(order_states(self.orders) =~= order_states(old(self).orders));
            },
        }
    }

    fn on_replace(&mut self, body: &[u8], out: &mut Vec<Event>)
        ensures
            final(self).with(final(out)@) == after_replace(old(self).with(old(out)@), body@),
    {
        if body.len() < 34 {
            return ;
        }
        let instr = be_u16_at(body, 0) as u32;
        let orig = be_u64_at(body, 10);
        let id = be_u64_at(body, 18);
        let shares = be_u32_at(body, 26) as i64;
        let price = be_u32_at(body, 30) as i64;
        let side = match orders_remove(&mut self.orders, orig) {
            Some(s) => {
                out.push(Event::Del { order_id: orig });
                s.side
            },
            None => Side::Bid,
        };
        out.push(Event::Add { order_id: id, instr, px: price, qty: shares, side });
        orders_insert(&mut self.orders, id, OrderState { instr, qty: shares, px: price, side });
    }

    fn on_trade(&mut self, body: &[u8], out: &mut Vec<Event>)
        ensures
            final(self).with(final(out)@) == after_trade(old(self).with(old(out)@), body@),
    {
        if body.len() < 43 {
            return ;
        }
        let instr = be_u16_at(body, 0) as u32;
        let id = be_u64_at(body, 10);
        let side_ch = body[18];
        let shares = be_u32_at(body, 19) as i64;
        let price = be_u32_at(body, 31) as i64;
        match orders_get(&self.orders, id) {
            Some(s) => {
                self.reduce_order(id, s, shares, Some(price), out);
                out.push(
                    Event::Trade {
                        instr: s.instr,
                        px: price,
                        qty: shares,
                        maker_order_id: Some(id),
                        taker_side: Some(opposite(s.side)),
                    },
                );
            },
            None => {
                out.push(
                    Event::Trade {
                        instr,
                        px: price,
                        qty: shares,
                        maker_order_id: Some(id),
                        taker_side: Some(side_from(side_ch)),
                    },
                );
            },
        }
    }

    fn on_stock_directory(&mut self, body: &[u8], out: &Vec<Event>)
        ensures
            final(self).with(out@) == after_directory(old(self).with(out@), body@),
    {
        if body.len() < 18 {
            return ;
        }
        let loc = be_u16_at(body, 0);
        let sym: [u8; 8] = [
            body[10],
            body[11],
            body[12],
            body[13],
            body[14],
            body[15],
            body[16],
            body[17],
        ];
        proof {
            assert(sym@ =~= body@.subrange(10, 18));
            let chosen = symbol_at(body@);
            assert(chosen@ == body@.subrange(10, 18));
            assert(sym =~= chosen);
        }
        symbols_insert(&mut self.last_symbol_by_locate, loc, sym);
    }

    /// Appends the events of `payload` to `out` and remembers the orders it
    /// adds, reduces and removes.
    pub fn decode_messages(&mut self, payload: &[u8], out: &mut Vec<Event>)
        ensures
            final(self)@ == decoding(old(self)@, payload@).state,
            final(out)@ == old(out)@ + decoding(old(self)@, payload@).events,
            final(out)@.len() <= old(out)@.len() + payload@.len(),
    {
        let ghost b = payload@;
        let ghost out0 = out@;
        let ghost st0 = self@;
        let mut off: usize = 0;
        proof {
            lemma_decoding_bounded(st0, b);
            lemma_prefixed(Decoding { state: st0, events: Seq::empty() }, out0, b, 0);
            assert(out0 + Seq::<Event>::empty() =~= out0);
        }
        while payload.len() - off >= 3
            invariant
                off <= payload.len(),
                b == payload@,
                after_messages(Decoding { state: st0, events: out0 }, b, 0) == after_messages(
                    self.with(out@),
                    b,
                    off as int,
                ),
            ensures
                after_messages(Decoding { state: st0, events: out0 }, b, 0) == self.with(out@),
            decreases payload.len() - off,
        {
            let msg_len = be_u16_at(payload, off) as usize;
            if msg_len < 1 {
                break;
            }
            if msg_len > payload.len() - off - 2 {
                break;
            }
            let typ = payload[off + 2];
            let body = slice_subrange(payload, off + 3, off + 2 + msg_len);
            if typ == 65 {
                self.on_add(body, out, false);
            } else if typ == 70 {
                self.on_add(body, out, true);
            } else if typ == 69 || typ == 67 {
                self.on_exec(body, out);
            } else if typ == 88 {
                self.on_cancel(body, out);
            } else if typ == 68 {
                self.on_delete(body, out);
            } else if typ == 85 {
                self.on_replace(body, out);
            } else if typ == 80 {
                self.on_trade(body, out);
            } else if typ == 82 {
                self.on_stock_directory(body, out);
            }
            off = off + 2 + msg_len;
        }
        proof {
            let d = decoding(st0, b);
            assert(self.with(out@).events == out0 + d.events);
        }
    }
}

/// Decoding appends to whatever events are already there: starting with the
/// events `pre` gives `pre` followed by what starting with none gives.
pub proof fn lemma_prefixed(d: Decoding, pre: Seq<Event>, b: Seq<u8>, off: int)
    requires
        0 <= off <= b.len(),
    ensures
        after_messages(Decoding { state: d.state, events: pre + d.events }, b, off) == (Decoding {
            state: after_messages(d, b, off).state,
            events: pre + after_messages(d, b, off).events,
        }),
    decreases b.len() - off,
{
    let dp = Decoding { state: d.state, events: pre + d.events };
    if off + 3 <= b.len() {
        let msg_len = be_value(b, off, 2);
        if msg_len >= 1 && off + 2 + msg_len <= b.len() {
            let typ = b[off + 2];
            let body = b.subrange(off + 3, off + 2 + msg_len);
            let d1 = after_message(d, typ, body);
            let dp1 = after_message(dp, typ, body);
            lemma_message_prefixed(d, pre, typ, body);
            lemma_messages_bounded(d1, b, off + 2 + msg_len);
            lemma_prefixed(d1, pre, b, off + 2 + msg_len);
        }
    }
}

/// One message appends to whatever events are already there.
pub proof fn lemma_message_prefixed(d: Decoding, pre: Seq<Event>, typ: u8, body: Seq<u8>)
    ensures
        after_message(Decoding { state: d.state, events: pre + d.events }, typ, body) == (Decoding {
            state: after_message(d, typ, body).state,
            events: pre + after_message(d, typ, body).events,
        }),
{
    let dp = Decoding { state: d.state, events: pre + d.events };
    let r = after_message(d, typ, body);
    let rp = after_message(dp, typ, body);
    assert(rp.events =~= pre + r.events);
}

impl MessageDecoder for Itch50Decoder {
    open spec fn spec_decoded(&self, payload: Seq<u8>) -> Seq<Event> {
        decoding(self@, payload).events
    }

    fn decode_messages(&mut self, payload: &[u8], out: &mut Vec<Event>) {
        Itch50Decoder::decode_messages(self, payload, out);
    }
}

} // verus!
