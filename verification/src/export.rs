//! The exported form of the books: for each instrument its resting orders,
//! bids first and then asks, level by level from the best price to the
//! worst, oldest order first within a level.
use vstd::prelude::*;
use crate::parser::{Event, Side};
use crate::side::{is_price_order, price_order};
use crate::shape::Shape;

verus! {

/// Version of the exported form.
pub const EXPORT_VERSION: u32 = 1;

/// A resting order as exported.
#[derive(Debug, Clone, Copy, PartialEq, Eq, Structural)]
pub struct OrderExport {
    pub order_id: u64,
    pub price: i64,
    pub qty: i64,
    pub side: Side,
}

/// The resting orders of one instrument.
#[derive(Debug, Clone)]
pub struct InstrumentExport {
    pub instr: u32,
    pub orders: Vec<OrderExport>,
}

/// The resting orders of all instruments.
#[derive(Debug, Clone)]
pub struct BookExport {
    pub version: u32,
    pub instruments: Vec<InstrumentExport>,
}

/// The id of the order that rests at `loc`, if the index names one.
pub open spec fn owner(index: Map<u64, (u32, usize)>, loc: (u32, usize)) -> Option<u64> {
    if exists|o: u64| index.contains_key(o) && index[o] == loc {
        Some(choose|o: u64| index.contains_key(o) && index[o] == loc)
    } else {
        None
    }
}

/// The exported orders of the chain `c` of level (`side`, `price`) of
/// instrument `instr`: the orders that the index names, oldest first.
pub open spec fn chain_orders(
    sh: Shape,
    index: Map<u64, (u32, usize)>,
    instr: u32,
    side: Side,
    price: i64,
    c: Seq<usize>,
) -> Seq<OrderExport>
    decreases c.len(),
{
    if c.len() == 0 {
        Seq::empty()
    } else {
        let rest = chain_orders(sh, index, instr, side, price, c.drop_last());
        match owner(index, (instr, c.last())) {
            Some(o) => rest.push(OrderExport { order_id: o, price, qty: sh.nodes[c.last()].qty, side }),
            None => rest,
        }
    }
}

/// The exported orders of the levels of `side` at `prices`, level after level.
pub open spec fn side_orders(
    sh: Shape,
    index: Map<u64, (u32, usize)>,
    instr: u32,
    side: Side,
    prices: Seq<i64>,
) -> Seq<OrderExport>
    decreases prices.len(),
{
    if prices.len() == 0 {
        Seq::empty()
    } else {
        side_orders(sh, index, instr, side, prices.drop_last()) + chain_orders(
            sh,
            index,
            instr,
            side,
            prices.last(),
            sh.chain_of((side, prices.last())),
        )
    }
}

/// The exported orders of instrument `instr`, whose book has shape `sh`:
/// the bids from the highest price down, then the asks from the lowest price
/// up, each level oldest order first. Whether a level is kept in the grid or
/// in the overflow store makes no difference.
pub open spec fn book_orders(sh: Shape, index: Map<u64, (u32, usize)>, instr: u32) -> Seq<OrderExport> {
    side_orders(sh, index, instr, Side::Bid, price_order(sh.bids, true)) + side_orders(
        sh,
        index,
        instr,
        Side::Ask,
        price_order(sh.asks, false),
    )
}

/// Both sides of `sh` can be listed by price: the price orders that an
/// export follows exist.
pub open spec fn listable(sh: Shape) -> bool {
    is_price_order(sh.bids, true, price_order(sh.bids, true)) && is_price_order(
        sh.asks,
        false,
        price_order(sh.asks, false),
    )
}

/// The events that rebuild the orders `orders` of instrument `instr`.
pub open spec fn add_events(instr: u32, orders: Seq<OrderExport>) -> Seq<Event> {
    orders.map_values(
        |o: OrderExport| Event::Add { order_id: o.order_id, instr, px: o.price, qty: o.qty, side: o.side },
    )
}

/// The instrument of the last of the first `n` entries of an export.
pub open spec fn last_instrument(instruments: Seq<InstrumentExport>, n: int) -> Option<u32> {
    if 0 < n <= instruments.len() {
        Some(instruments[n - 1].instr)
    } else {
        None
    }
}

/// The events that rebuild the first `n` instruments of an export.
pub open spec fn export_events(instruments: Seq<InstrumentExport>, n: int) -> Seq<Event>
    decreases n,
{
    if n <= 0 || n > instruments.len() {
        Seq::empty()
    } else {
        export_events(instruments, n - 1) + add_events(instruments[n - 1].instr, instruments[n - 1].orders@)
    }
}

} // verus!
