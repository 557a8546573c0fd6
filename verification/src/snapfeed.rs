//! The frames that open a client's stream when it asks for a snapshot of
//! the books: a start frame, for every instrument a header frame and one add
//! frame per resting order, and an end frame.
use vstd::prelude::*;
use crate::codec_raw::{
    build_frame, spec_frame, FullBookSnapshotHdrV1, OboAddV1, OBO_ADD, OBO_L3, SNAPSHOT_END, SNAPSHOT_HDR,
    SNAPSHOT_START,
};
use crate::export::{BookExport, InstrumentExport, OrderExport};
use crate::obo::{side_to_u8, spec_side_to_u8, wire_qty};
use crate::wire::i64_to_u64;

verus! {

/// The bytes of each of `frames`.
pub open spec fn views(frames: Seq<Vec<u8>>) -> Seq<Seq<u8>> {
    frames.map_values(|f: Vec<u8>| f@)
}

/// The add frame of the exported order `o` of instrument `instr`, sent at
/// `now`. Snapshot frames carry sequence number 0.
pub open spec fn spec_order_frame(instr: u32, o: OrderExport, now: u64) -> Seq<u8> {
    spec_frame(
        OBO_ADD,
        OBO_L3,
        instr as u64,
        0,
        now,
        (OboAddV1 {
            order_id: o.order_id,
            price_e8: o.price,
            qty: wire_qty(o.qty),
            side: spec_side_to_u8(o.side),
            flags: 0,
        }).spec_bytes(),
    )
}

/// The frame that precedes the `orders` orders of an instrument: it tells
/// their number (its low 32 bits) and no level count.
pub open spec fn spec_header_frame(orders: nat, now: u64) -> Seq<u8> {
    spec_frame(
        SNAPSHOT_HDR,
        OBO_L3,
        0,
        0,
        now,
        (FullBookSnapshotHdrV1 { level_count: 0, total_orders: (orders % 0x1_0000_0000) as u32 }).spec_bytes(),
    )
}

/// The add frames of the orders `orders` of instrument `instr`, in order.
pub open spec fn spec_order_frames(instr: u32, orders: Seq<OrderExport>, now: u64) -> Seq<Seq<u8>> {
    orders.map_values(|o: OrderExport| spec_order_frame(instr, o, now))
}

/// The frames of the first `n` instruments of an export: for each its
/// header frame and then the add frames of its orders.
pub open spec fn spec_body_frames(instruments: Seq<InstrumentExport>, n: int, now: u64) -> Seq<Seq<u8>>
    decreases n,
{
    if n <= 0 || n > instruments.len() {
        Seq::empty()
    } else {
        spec_body_frames(instruments, n - 1, now) + seq![
            spec_header_frame(instruments[n - 1].orders@.len(), now),
        ] + spec_order_frames(instruments[n - 1].instr, instruments[n - 1].orders@, now)
    }
}

/// The frames of a snapshot of `exp` sent at `now`: the start frame, the
/// frames of every instrument in the order of the export, the end frame.
pub open spec fn spec_snapshot_frames(exp: BookExport, now: u64) -> Seq<Seq<u8>> {
    seq![spec_frame(SNAPSHOT_START, OBO_L3, 0, 0, now, Seq::empty())] + spec_body_frames(
        exp.instruments@,
        exp.instruments@.len() as int,
        now,
    ) + seq![spec_frame(SNAPSHOT_END, OBO_L3, 0, 0, now, Seq::empty())]
}

/// Builds the frames of a snapshot of `exp` sent at `now`.
pub fn snapshot_frames(exp: &BookExport, now: u64) -> (frames: Vec<Vec<u8>>)
    ensures
        views(frames@) == spec_snapshot_frames(*exp, now),
{
    let none: Vec<u8> = Vec::new();
    let mut frames: Vec<Vec<u8>> = Vec::new();
    frames.push(build_frame(SNAPSHOT_START, none.as_slice(), 0, 0, now));
    let ghost start = seq![spec_frame(SNAPSHOT_START, OBO_L3, 0, 0, now, Seq::empty())];
    assert(none@ =~= Seq::<u8>::empty());
    assert(views(frames@) =~= start + spec_body_frames(exp.instruments@, 0, now));
    let mut i: usize = 0;
    while i < exp.instruments.len()
        invariant
            i <= exp.instruments@.len(),
            views(frames@) == start + spec_body_frames(exp.instruments@, i as int, now),
        decreases exp.instruments@.len() - i,
    {
        let ie = &exp.instruments[i];
        let ghost before = views(frames@);
        let hdr = FullBookSnapshotHdrV1 {
            level_count: 0,
            total_orders: ((ie.orders.len() as u64) % 0x1_0000_0000) as u32,
        };
        let hdr_bytes = hdr.to_bytes();
        frames.push(build_frame(SNAPSHOT_HDR, hdr_bytes.as_slice(), 0, 0, now));
        let ghost head = before + seq![spec_header_frame(ie.orders@.len(), now)];
        assert(views(frames@) =~= head + spec_order_frames(ie.instr, ie.orders@.take(0), now));
        let mut j: usize = 0;
        while j < ie.orders.len()
            invariant
                j <= ie.orders@.len(),
                views(frames@) == head + spec_order_frames(ie.instr, ie.orders@.take(j as int), now),
            decreases ie.orders@.len() - j,
        {
            let o = ie.orders[j];
            let add = OboAddV1 {
                order_id: o.order_id,
                price_e8: o.price,
                qty: i64_to_u64(o.qty),
                side: side_to_u8(o.side),
                flags: 0,
            };
            let add_bytes = add.to_bytes();
            let ghost prev = views(frames@);
            frames.push(build_frame(OBO_ADD, add_bytes.as_slice(), ie.instr as u64, 0, now));
            proof {
                assert(views(frames@) =~= prev.push(spec_order_frame(ie.instr, o, now)));
                assert(ie.orders@.take(j + 1) =~= ie.orders@.take(j as int).push(o));
                assert(spec_order_frames(ie.instr, ie.orders@.take(j + 1), now) =~= spec_order_frames(
                    ie.instr,
                    ie.orders@.take(j as int),
                    now,
                ).push(spec_order_frame(ie.instr, o, now)));
            }
            j += 1;
        }
        proof {
            assert(ie.orders@.take(j as int) =~= ie.orders@);
            assert(views(frames@) =~= start + spec_body_frames(exp.instruments@, i + 1, now));
        }
        i += 1;
    }
    let ghost body = views(frames@);
    frames.push(build_frame(SNAPSHOT_END, none.as_slice(), 0, 0, now));
    assert(views(frames@) =~= body.push(spec_frame(SNAPSHOT_END, OBO_L3, 0, 0, now, Seq::empty())));
    assert(views(frames@) =~= spec_snapshot_frames(*exp, now));
    frames
}

} // verus!
