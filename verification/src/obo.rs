//! Normalized order-by-order wire events and their mapping from book events.
use vstd::prelude::*;
use crate::codec_raw::{OboAddV1, OboCancelV1, OboExecuteV1, OboModifyV1};
use crate::parser::{Event, Side};
use crate::wire::{as_unsigned_64, i64_to_u64};

verus! {

/// A wire event of the order-by-order channel.
#[derive(Debug, Clone, Copy, PartialEq, Eq, Structural)]
pub enum OboEventV1 {
    Add(OboAddV1),
    Modify(OboModifyV1),
    Cancel(OboCancelV1),
    Execute(OboExecuteV1),
}

/// Flag of a modify that changes only the quantity.
pub const FLAG_QTY_ONLY: u8 = 1;

/// The wire code of a side: 0 for a bid, 1 for an ask.
pub open spec fn spec_side_to_u8(side: Side) -> u8 {
    match side {
        Side::Bid => 0,
        Side::Ask => 1,
    }
}

/// The wire code of a side.
pub fn side_to_u8(side: Side) -> (r: u8)
    ensures
        r == spec_side_to_u8(side),
{
    match side {
        Side::Bid => 0,
        Side::Ask => 1,
    }
}

/// A quantity as it goes on the wire: its 64-bit pattern.
pub open spec fn wire_qty(qty: i64) -> u64 {
    as_unsigned_64(qty as int) as u64
}

/// The instrument that an event names and the wire event it maps to.
///
/// An add maps to an add; a modify to a quantity-only modify with price 0; a
/// delete to a cancel with quantity and reason 0; a trade with a known maker
/// to an execution whose aggressor is the taker (a bid if unknown) and whose
/// match id is 0. A trade without maker and a heartbeat map to nothing.
/// Adds and trades name their instrument; the others do not.
pub open spec fn spec_map_event(ev: Event) -> (Option<u32>, Option<OboEventV1>) {
    match ev {
        Event::Add { order_id, instr, px, qty, side } => (
            Some(instr),
            Some(
                OboEventV1::Add(
                    OboAddV1 { order_id, price_e8: px, qty: wire_qty(qty), side: spec_side_to_u8(side), flags: 0 },
                ),
            ),
        ),
        Event::Mod { order_id, qty } => (
            None,
            Some(
                OboEventV1::Modify(
                    OboModifyV1 { order_id, new_price_e8: 0, new_qty: wire_qty(qty), flags: FLAG_QTY_ONLY },
                ),
            ),
        ),
        Event::Del { order_id } => (
            None,
            Some(OboEventV1::Cancel(OboCancelV1 { order_id, qty_cxl: 0, reason: 0 })),
        ),
        Event::Trade { instr, px, qty, maker_order_id, taker_side } => match maker_order_id {
            Some(maker) => (
                Some(instr),
                Some(
                    OboEventV1::Execute(
                        OboExecuteV1 {
                            maker_order_id: maker,
                            trade_qty: wire_qty(qty),
                            trade_price_e8: px,
                            aggressor_side: match taker_side {
                                Some(s) => spec_side_to_u8(s),
                                None => 0,
                            },
                            match_id: 0,
                        },
                    ),
                ),
            ),
            None => (Some(instr), None),
        },
        Event::Heartbeat => (None, None),
    }
}

/// Maps a book event to the instrument it names and its wire event.
pub fn map_event_to_obo_parts(ev: &Event) -> (r: (Option<u32>, Option<OboEventV1>))
    ensures
        r == spec_map_event(*ev),
{
    match *ev {
        Event::Add { order_id, instr, px, qty, side } => (
            Some(instr),
            Some(
                OboEventV1::Add(
                    OboAddV1 { order_id, price_e8: px, qty: i64_to_u64(qty), side: side_to_u8(side), flags: 0 },
                ),
            ),
        ),
        Event::Mod { order_id, qty } => (
            None,
            Some(
                OboEventV1::Modify(
                    OboModifyV1 { order_id, new_price_e8: 0, new_qty: i64_to_u64(qty), flags: FLAG_QTY_ONLY },
                ),
            ),
        ),
        Event::Del { order_id } => (
            None,
            Some(OboEventV1::Cancel(OboCancelV1 { order_id, qty_cxl: 0, reason: 0 })),
        ),
        Event::Trade { instr, px, qty, maker_order_id, taker_side } => {
            match maker_order_id {
                Some(maker) => {
                    let side = match taker_side {
                        Some(s) => side_to_u8(s),
                        None => 0,
                    };
                    (
                        Some(instr),
                        Some(
                            OboEventV1::Execute(
                                OboExecuteV1 {
                                    maker_order_id: maker,
                                    trade_qty: i64_to_u64(qty),
                                    trade_price_e8: px,
                                    aggressor_side: side,
                                    match_id: 0,
                                },
                            ),
                        ),
                    )
                },
                None => (Some(instr), None),
            }
        },
        Event::Heartbeat => (None, None),
    }
}

impl OboEventV1 {
    /// The message type of the frame that carries the event.
    pub open spec fn spec_msg_type(self) -> u16 {
        match self {
            OboEventV1::Add(_) => crate::codec_raw::OBO_ADD,
            OboEventV1::Modify(_) => crate::codec_raw::OBO_MODIFY,
            OboEventV1::Cancel(_) => crate::codec_raw::OBO_CANCEL,
            OboEventV1::Execute(_) => crate::codec_raw::OBO_EXECUTE,
        }
    }

    /// The payload bytes of the event.
    pub open spec fn spec_bytes(self) -> Seq<u8> {
        match self {
            OboEventV1::Add(p) => p.spec_bytes(),
            OboEventV1::Modify(p) => p.spec_bytes(),
            OboEventV1::Cancel(p) => p.spec_bytes(),
            OboEventV1::Execute(p) => p.spec_bytes(),
        }
    }

    /// The message type and the payload bytes of the event.
    pub fn encode(&self) -> (r: (u16, Vec<u8>))
        ensures
            r.0 == self.spec_msg_type(),
            r.1@ == self.spec_bytes(),
    {
        match self {
            OboEventV1::Add(p) => (crate::codec_raw::OBO_ADD, p.to_bytes()),
            OboEventV1::Modify(p) => (crate::codec_raw::OBO_MODIFY, p.to_bytes()),
            OboEventV1::Cancel(p) => (crate::codec_raw::OBO_CANCEL, p.to_bytes()),
            OboEventV1::Execute(p) => (crate::codec_raw::OBO_EXECUTE, p.to_bytes()),
        }
    }
}

} // verus!
