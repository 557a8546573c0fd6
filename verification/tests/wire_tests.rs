use feed_ingest::codec_raw::{
    build_frame, encode_frame, magic, FrameHeaderV1, FullBookSnapshotHdrV1, GapV1, HeartbeatV1, OboAddV1,
    OboCancelV1, OboExecuteV1, OboModifyV1, SeqResetV1, SnapshotEndV1, SnapshotStartV1, HEADER_LEN, OBO_ADD,
    SEND_TIME_OFFSET,
};
use feed_ingest::export::{BookExport, InstrumentExport, OrderExport};
use feed_ingest::obo::{map_event_to_obo_parts, side_to_u8, OboEventV1};
use feed_ingest::parser::{opposite, Event, Side};
use feed_ingest::snapfeed::snapshot_frames;
use feed_ingest::snapshot::{frame, parse, SnapshotError};
use feed_ingest::wire::{
    be_u16_at, be_u32_at, be_u64_at, i64_to_u64, le_i64_at, le_u16_at, le_u32_at, le_u64_at, u64_to_i64,
};

#[test]
fn readers_agree_with_std() {
    let b: Vec<u8> = (1..=20u8).map(|x| x.wrapping_mul(37)).collect();
    for off in 0..10usize {
        assert_eq!(be_u16_at(&b, off), u16::from_be_bytes([b[off], b[off + 1]]));
        assert_eq!(le_u16_at(&b, off), u16::from_le_bytes([b[off], b[off + 1]]));
        assert_eq!(be_u32_at(&b, off), u32::from_be_bytes(b[off..off + 4].try_into().unwrap()));
        assert_eq!(le_u32_at(&b, off), u32::from_le_bytes(b[off..off + 4].try_into().unwrap()));
        assert_eq!(be_u64_at(&b, off), u64::from_be_bytes(b[off..off + 8].try_into().unwrap()));
        assert_eq!(le_u64_at(&b, off), u64::from_le_bytes(b[off..off + 8].try_into().unwrap()));
        assert_eq!(le_i64_at(&b, off), i64::from_le_bytes(b[off..off + 8].try_into().unwrap()));
    }
    assert_eq!(be_u16_at(&[0x12, 0x34], 0), 0x1234);
    assert_eq!(le_u16_at(&[0x12, 0x34], 0), 0x3412);
    assert_eq!(le_i64_at(&[0xff; 8], 0), -1);
}

#[test]
fn sign_reinterpretation() {
    for v in [0i64, 1, -1, i64::MIN, i64::MAX, -123456789] {
        assert_eq!(i64_to_u64(v), v as u64);
        assert_eq!(u64_to_i64(v as u64), v);
    }
    assert_eq!(u64_to_i64(u64::MAX), -1);
    assert_eq!(u64_to_i64(1 << 63), i64::MIN);
}

#[test]
fn header_layout_is_forty_little_endian_bytes() {
    let h = FrameHeaderV1::new(0x0102, 0x03040506, 0x0708090a0b0c0d0e, 0x1112131415161718, 0x2122232425262728, 7);
    let b = h.to_bytes();
    assert_eq!(b.len(), HEADER_LEN);
    assert_eq!(&b[0..4], b"OBv1");
    assert_eq!(b[4], 1);
    assert_eq!(b[5], 0);
    assert_eq!(&b[6..8], &[0x02, 0x01]);
    assert_eq!(&b[8..12], &[0x06, 0x05, 0x04, 0x03]);
    assert_eq!(&b[12..20], &0x0708090a0b0c0d0eu64.to_le_bytes());
    assert_eq!(&b[20..28], &0x1112131415161718u64.to_le_bytes());
    assert_eq!(&b[28..36], &0x2122232425262728u64.to_le_bytes());
    assert_eq!(&b[36..40], &[7, 0, 0, 0]);
}

#[test]
fn header_round_trip() {
    let h = FrameHeaderV1 {
        magic: [9, 8, 7, 6],
        version: 200,
        codec: 3,
        message_type: u16::MAX,
        channel_id: 0xdeadbeef,
        instrument_id: u64::MAX,
        sequence: 1,
        send_time_ns: 0,
        payload_len: u32::MAX,
    };
    let mut b = h.to_bytes();
    b.extend_from_slice(&[1, 2, 3]);
    let back = FrameHeaderV1::read(&b).unwrap();
    assert_eq!(back, h);
    assert!(!back.is_valid());
    assert!(FrameHeaderV1::new(1, 0, 0, 0, 0, 0).is_valid());
    assert_eq!(magic(), *b"OBv1");
    assert!(FrameHeaderV1::read(&b[..39]).is_none());
    assert!(FrameHeaderV1::read(&[]).is_none());
}

#[test]
fn frames_carry_header_and_payload() {
    let f = build_frame(OBO_ADD, &[9, 9, 9], 42, 7, 1234);
    assert_eq!(f.len(), HEADER_LEN + 3);
    let h = FrameHeaderV1::read(&f).unwrap();
    assert!(h.is_valid());
    assert_eq!(h.message_type, 100);
    assert_eq!(h.channel_id, 0);
    assert_eq!(h.instrument_id, 42);
    assert_eq!(h.sequence, 7);
    assert_eq!(h.send_time_ns, 1234);
    assert_eq!(h.payload_len, 3);
    assert_eq!(&f[HEADER_LEN..], &[9, 9, 9]);
    let g = encode_frame(2, 5, 0, 0, 0, &[]);
    assert_eq!(g.len(), HEADER_LEN);
    assert_eq!(FrameHeaderV1::read(&g).unwrap().channel_id, 5);
}

#[test]
fn payload_layouts() {
    assert_eq!(HeartbeatV1 { reserved: 1 }.to_bytes(), 1u64.to_le_bytes().to_vec());
    let g = GapV1 { from_inclusive: 3, to_inclusive: 7 }.to_bytes();
    assert_eq!(g.len(), 16);
    assert_eq!(&g[0..8], &3u64.to_le_bytes());
    assert_eq!(&g[8..16], &7u64.to_le_bytes());
    assert_eq!(SnapshotStartV1 { reserved: 0x01020304 }.to_bytes(), vec![4, 3, 2, 1]);
    assert_eq!(SnapshotEndV1 { reserved: 0 }.to_bytes(), vec![0; 4]);
    assert_eq!(SeqResetV1 { new_start_seq: 9 }.to_bytes(), 9u64.to_le_bytes().to_vec());
    let a = OboAddV1 { order_id: 1, price_e8: -2, qty: 3, side: 1, flags: 4 }.to_bytes();
    assert_eq!(a.len(), 26);
    assert_eq!(&a[8..16], &(-2i64).to_le_bytes());
    assert_eq!(&a[24..26], &[1, 4]);
    let m = OboModifyV1 { order_id: 1, new_price_e8: 0, new_qty: 3, flags: 1 }.to_bytes();
    assert_eq!(m.len(), 25);
    assert_eq!(m[24], 1);
    let c = OboCancelV1 { order_id: 1, qty_cxl: 2, reason: 3 }.to_bytes();
    assert_eq!(c.len(), 17);
    assert_eq!(c[16], 3);
    let e = OboExecuteV1 { maker_order_id: 1, trade_qty: 2, trade_price_e8: i64::MIN, aggressor_side: 1, match_id: 5 }
        .to_bytes();
    assert_eq!(e.len(), 33);
    assert_eq!(&e[16..24], &i64::MIN.to_le_bytes());
    assert_eq!(e[24], 1);
    assert_eq!(&e[25..33], &5u64.to_le_bytes());
    let s = FullBookSnapshotHdrV1 { level_count: 1, total_orders: 2 }.to_bytes();
    assert_eq!(s, vec![1, 0, 0, 0, 2, 0, 0, 0]);
}

#[test]
fn events_map_to_wire_events() {
    assert_eq!(side_to_u8(Side::Bid), 0);
    assert_eq!(side_to_u8(Side::Ask), 1);
    assert_eq!(opposite(Side::Bid), Side::Ask);
    assert_eq!(opposite(Side::Ask), Side::Bid);
    let add = Event::Add { order_id: 1, instr: 2, px: 3, qty: 4, side: Side::Ask };
    assert_eq!(
        map_event_to_obo_parts(&add),
        (Some(2), Some(OboEventV1::Add(OboAddV1 { order_id: 1, price_e8: 3, qty: 4, side: 1, flags: 0 })))
    );
    assert_eq!(
        map_event_to_obo_parts(&Event::Mod { order_id: 1, qty: -1 }),
        (None, Some(OboEventV1::Modify(OboModifyV1 { order_id: 1, new_price_e8: 0, new_qty: u64::MAX, flags: 1 })))
    );
    assert_eq!(
        map_event_to_obo_parts(&Event::Del { order_id: 5 }),
        (None, Some(OboEventV1::Cancel(OboCancelV1 { order_id: 5, qty_cxl: 0, reason: 0 })))
    );
    assert_eq!(
        map_event_to_obo_parts(&Event::Trade { instr: 9, px: 8, qty: 7, maker_order_id: Some(6), taker_side: None }),
        (
            Some(9),
            Some(OboEventV1::Execute(OboExecuteV1 {
                maker_order_id: 6,
                trade_qty: 7,
                trade_price_e8: 8,
                aggressor_side: 0,
                match_id: 0
            }))
        )
    );
    assert_eq!(
        map_event_to_obo_parts(&Event::Trade {
            instr: 9,
            px: 8,
            qty: 7,
            maker_order_id: Some(6),
            taker_side: Some(Side::Ask)
        })
        .1,
        Some(OboEventV1::Execute(OboExecuteV1 {
            maker_order_id: 6,
            trade_qty: 7,
            trade_price_e8: 8,
            aggressor_side: 1,
            match_id: 0
        }))
    );
    assert_eq!(
        map_event_to_obo_parts(&Event::Trade { instr: 9, px: 8, qty: 7, maker_order_id: None, taker_side: None }),
        (Some(9), None)
    );
    assert_eq!(map_event_to_obo_parts(&Event::Heartbeat), (None, None));
    let (ty, bytes) = OboEventV1::Cancel(OboCancelV1 { order_id: 5, qty_cxl: 0, reason: 0 }).encode();
    assert_eq!(ty, 102);
    assert_eq!(bytes.len(), 17);
}

#[test]
fn snapshot_header_and_errors() {
    let f = frame(0x0102030405060708, &[7, 7]);
    assert_eq!(&f[0..8], b"OBSNAP\0\0");
    assert_eq!(&f[8..12], &[0, 0, 0, 1]);
    assert_eq!(&f[12..20], &[1, 2, 3, 4, 5, 6, 7, 8]);
    assert_eq!(&f[20..], &[7, 7]);
    assert_eq!(parse(&f), Ok(0x0102030405060708));
    assert_eq!(parse(&f[..19]), Err(SnapshotError::TooSmall));
    let mut bad = f.clone();
    bad[0] = b'X';
    assert_eq!(parse(&bad), Err(SnapshotError::BadMagic));
    let mut v2 = f.clone();
    v2[11] = 2;
    assert_eq!(parse(&v2), Err(SnapshotError::UnsupportedVersion(2)));
    // the magic is judged before the version
    v2[7] = 1;
    assert_eq!(parse(&v2), Err(SnapshotError::BadMagic));
}

#[test]
fn the_send_time_is_all_that_tells_two_sendings_apart() {
    let a = build_frame(100, &[1, 2, 3], 7, 9, 1_000);
    let b = build_frame(100, &[1, 2, 3], 7, 9, 987_654_321);
    assert_eq!(a.len(), b.len());
    for i in 0..a.len() {
        if !(SEND_TIME_OFFSET..SEND_TIME_OFFSET + 8).contains(&i) {
            assert_eq!(a[i], b[i]);
        }
    }
    assert_eq!(&a[SEND_TIME_OFFSET..SEND_TIME_OFFSET + 8], &1_000u64.to_le_bytes());
    assert_eq!(&b[SEND_TIME_OFFSET..SEND_TIME_OFFSET + 8], &987_654_321u64.to_le_bytes());
}

#[test]
fn snapshot_frames_are_start_then_header_and_adds_then_end() {
    let first = OrderExport { order_id: 1, price: 100, qty: 5, side: Side::Bid };
    let second = OrderExport { order_id: 2, price: 101, qty: 6, side: Side::Ask };
    let exp = BookExport {
        version: 1,
        instruments: vec![
            InstrumentExport { instr: 7, orders: vec![first, second] },
            InstrumentExport { instr: 9, orders: vec![] },
        ],
    };
    let frames = snapshot_frames(&exp, 77);
    let hs: Vec<FrameHeaderV1> = frames.iter().map(|f| FrameHeaderV1::read(f).unwrap()).collect();
    let got: Vec<(u16, u64, u64, u64)> =
        hs.iter().map(|h| (h.message_type, h.instrument_id, h.sequence, h.send_time_ns)).collect();
    assert_eq!(
        got,
        vec![(3, 0, 0, 77), (104, 0, 0, 77), (100, 7, 0, 77), (100, 7, 0, 77), (104, 0, 0, 77), (4, 0, 0, 77)]
    );
    assert_eq!(frames[0].len(), HEADER_LEN);
    assert_eq!(&frames[1][HEADER_LEN..], &[0, 0, 0, 0, 2, 0, 0, 0]);
    assert_eq!(&frames[4][HEADER_LEN..], &[0, 0, 0, 0, 0, 0, 0, 0]);
    let add = OboAddV1 { order_id: 2, price_e8: 101, qty: 6, side: 1, flags: 0 };
    assert_eq!(&frames[3][HEADER_LEN..], add.to_bytes().as_slice());
    let bare = snapshot_frames(&BookExport { version: 1, instruments: vec![] }, 1);
    assert_eq!(bare.len(), 2);
}
