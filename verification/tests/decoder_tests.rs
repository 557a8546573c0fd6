use feed_ingest::decoder_eobi::EobiSbeDecoder;
use feed_ingest::decoder_fast::{read_pmap, read_sbi_u64, unzigzag, FastEmdiDecoder};
use feed_ingest::decoder_itch::Itch50Decoder;
use feed_ingest::orderbook::OrderBook;
use feed_ingest::parser::{Event, Side};

fn hdr(block_len: u16, template: u16, schema: u16, version: u16) -> [u8; 8] {
    let mut h = [0u8; 8];
    h[0..2].copy_from_slice(&block_len.to_le_bytes());
    h[2..4].copy_from_slice(&template.to_le_bytes());
    h[4..6].copy_from_slice(&schema.to_le_bytes());
    h[6..8].copy_from_slice(&version.to_le_bytes());
    h
}

#[test]
fn decode_add_ok() {
    let mut buf = Vec::new();
    // body
    let mut body = Vec::new();
    body.extend_from_slice(&123u64.to_le_bytes()); // order_id
    body.extend_from_slice(&(42u32).to_le_bytes()); // instr
    body.push(0u8); // side bid
    body.extend_from_slice(&(1000i64).to_le_bytes()); // px
    body.extend_from_slice(&(10i64).to_le_bytes()); // qty
    let h = hdr(body.len() as u16, 1001, 1, 1);
    buf.extend_from_slice(&h);
    buf.extend_from_slice(&body);

    let dec = EobiSbeDecoder::new();
    let mut out = Vec::new();
    dec.decode_messages(&buf, &mut out);
    match out.as_slice() {
        [Event::Add { order_id, instr, px, qty, side }] => {
            assert_eq!(*order_id, 123);
            assert_eq!(*instr, 42);
            assert_eq!(*px, 1000);
            assert_eq!(*qty, 10);
            assert!(matches!(side, Side::Bid));
        }
        _ => panic!("unexpected events: {:?}", out),
    }
}

#[test]
fn decode_mod_del_trade_ok() {
    let mut buf = Vec::new();
    // MOD
    let mut b1 = Vec::new();
    b1.extend_from_slice(&123u64.to_le_bytes());
    b1.extend_from_slice(&(5i64).to_le_bytes());
    buf.extend_from_slice(&hdr(b1.len() as u16, 1002, 1, 1));
    buf.extend_from_slice(&b1);
    // DEL
    let mut b2 = Vec::new();
    b2.extend_from_slice(&123u64.to_le_bytes());
    buf.extend_from_slice(&hdr(b2.len() as u16, 1003, 1, 1));
    buf.extend_from_slice(&b2);
    // TRADE
    let mut b3 = Vec::new();
    b3.extend_from_slice(&(7u32).to_le_bytes()); // instr
    b3.extend_from_slice(&(111i64).to_le_bytes()); // px
    b3.extend_from_slice(&(2i64).to_le_bytes()); // qty
    b3.extend_from_slice(&(123u64).to_le_bytes()); // maker
    b3.push(1u8); // taker ask
    buf.extend_from_slice(&hdr(b3.len() as u16, 1004, 1, 1));
    buf.extend_from_slice(&b3);

    let dec = EobiSbeDecoder::new();
    let mut out = Vec::new();
    dec.decode_messages(&buf, &mut out);
    assert!(matches!(out[0], Event::Mod { order_id: 123, qty: 5 }));
    assert!(matches!(out[1], Event::Del { order_id: 123 }));
    match out[2] {
        Event::Trade { instr, px, qty, maker_order_id, taker_side } => {
            assert_eq!(instr, 7);
            assert_eq!(px, 111);
            assert_eq!(qty, 2);
            assert_eq!(maker_order_id, Some(123));
            assert!(matches!(taker_side, Some(Side::Ask)));
        }
        _ => panic!("expected trade event"),
    }
}

#[test]
fn eobi_negative_values_and_unknown_taker() {
    let mut body = Vec::new();
    body.extend_from_slice(&(9u32).to_le_bytes());
    body.extend_from_slice(&(-5i64).to_le_bytes());
    body.extend_from_slice(&(i64::MIN).to_le_bytes());
    body.extend_from_slice(&(u64::MAX).to_le_bytes());
    body.push(7u8);
    let mut buf = Vec::new();
    buf.extend_from_slice(&hdr(body.len() as u16, 1004, 0, 0));
    buf.extend_from_slice(&body);
    let mut out = Vec::new();
    EobiSbeDecoder::new().decode_messages(&buf, &mut out);
    assert_eq!(
        out,
        vec![Event::Trade { instr: 9, px: -5, qty: i64::MIN, maker_order_id: Some(u64::MAX), taker_side: None }]
    );
}

#[test]
fn eobi_skips_unknown_and_short_and_stops_at_truncation() {
    let mut buf = Vec::new();
    // unknown template with a body
    buf.extend_from_slice(&hdr(3, 2000, 0, 0));
    buf.extend_from_slice(&[1, 2, 3]);
    // add whose body is too short for an add
    buf.extend_from_slice(&hdr(4, 1001, 0, 0));
    buf.extend_from_slice(&[0, 0, 0, 0]);
    // a good delete
    buf.extend_from_slice(&hdr(8, 1003, 0, 0));
    buf.extend_from_slice(&77u64.to_le_bytes());
    // a delete whose body is cut short
    buf.extend_from_slice(&hdr(8, 1003, 0, 0));
    buf.extend_from_slice(&[1, 2, 3]);
    let mut out = vec![Event::Heartbeat];
    EobiSbeDecoder::new().decode_messages(&buf, &mut out);
    assert_eq!(out, vec![Event::Heartbeat, Event::Del { order_id: 77 }]);
    let mut none = Vec::new();
    EobiSbeDecoder::new().decode_messages(&[], &mut none);
    EobiSbeDecoder::new().decode_messages(&[1, 2, 3, 4, 5, 6, 7], &mut none);
    assert!(none.is_empty());
}

fn sbi(mut v: u64) -> Vec<u8> {
    let mut out = Vec::new();
    loop {
        let b = (v & 0x7f) as u8;
        v >>= 7;
        if v == 0 {
            out.push(b);
            return out;
        }
        out.push(b | 0x80);
    }
}

fn zz(v: i64) -> u64 {
    ((v << 1) ^ (v >> 63)) as u64
}

fn fast_msg(pmap: u64, tmpl: u64, body: &[u8]) -> Vec<u8> {
    let mut m = sbi(pmap);
    m.extend(sbi(tmpl));
    m.extend(sbi(body.len() as u64));
    m.extend_from_slice(body);
    m
}

#[test]
fn fast_varints_and_zigzag() {
    assert_eq!(read_sbi_u64(&[0x05], 0), (5, 1));
    assert_eq!(read_sbi_u64(&[0x80 | 0x2c, 0x02], 0), (300, 2));
    assert_eq!(read_sbi_u64(&[0x01, 0x80 | 0x2c, 0x02, 0x09], 1), (300, 2));
    assert_eq!(read_sbi_u64(&[0x05], 1), (0, 0));
    // a continuation bit on the last byte: what is there is taken
    assert_eq!(read_sbi_u64(&[0x81], 0), (1, 1));
    // ten bytes at most
    let long = [0xffu8; 12];
    assert_eq!(read_sbi_u64(&long, 0), (u64::MAX, 10));
    assert_eq!(read_pmap(&long, 0), (u64::MAX >> 1, 9));
    assert_eq!(read_sbi_u64(&sbi(u64::MAX), 0), (u64::MAX, 10));
    assert_eq!(unzigzag(0), 0);
    assert_eq!(unzigzag(1), -1);
    assert_eq!(unzigzag(2), 1);
    assert_eq!(unzigzag(3), -2);
    assert_eq!(unzigzag(u64::MAX), i64::MIN);
    assert_eq!(unzigzag(u64::MAX - 1), i64::MAX);
    assert_eq!(unzigzag(zz(-123456)), -123456);
}

#[test]
fn fast_decodes_each_template() {
    let mut add = sbi(77);
    add.extend(sbi(5));
    add.push(1);
    add.extend(sbi(zz(-250)));
    add.extend(sbi(zz(40)));
    let mut modi = sbi(77);
    modi.extend(sbi(zz(30)));
    let del = sbi(77);
    let mut trade = sbi(5);
    trade.extend(sbi(zz(1000)));
    trade.extend(sbi(zz(3)));
    trade.extend(sbi(77));
    trade.push(0);
    let mut buf = fast_msg(0, 1, &add);
    buf.extend(fast_msg(0, 2, &modi));
    buf.extend(fast_msg(0, 3, &del));
    buf.extend(fast_msg(3, 4, &trade));
    buf.extend(fast_msg(0, 4, &trade));
    buf.extend(fast_msg(0, 9, &[1, 2, 3]));
    let mut out = Vec::new();
    FastEmdiDecoder::new().decode_messages(&buf, &mut out);
    assert_eq!(
        out,
        vec![
            Event::Add { order_id: 77, instr: 5, px: -250, qty: 40, side: Side::Ask },
            Event::Mod { order_id: 77, qty: 30 },
            Event::Del { order_id: 77 },
            Event::Trade { instr: 5, px: 1000, qty: 3, maker_order_id: Some(77), taker_side: Some(Side::Bid) },
            Event::Trade { instr: 5, px: 1000, qty: 3, maker_order_id: None, taker_side: None },
        ]
    );
}

#[test]
fn fast_handles_missing_fields_and_truncation() {
    let mut out = Vec::new();
    // a delete without a body still deletes order 0; a modify without quantity sets 0
    let mut buf = fast_msg(0, 3, &[]);
    buf.extend(fast_msg(0, 2, &sbi(9)));
    // an add that lacks its quantity yields nothing
    let mut add = sbi(77);
    add.extend(sbi(5));
    add.push(0);
    add.extend(sbi(2));
    buf.extend(fast_msg(0, 1, &add));
    // a message whose body is longer than what is left ends the payload
    buf.extend(sbi(0));
    buf.extend(sbi(3));
    buf.extend(sbi(200));
    buf.extend_from_slice(&[1, 2, 3]);
    FastEmdiDecoder::new().decode_messages(&buf, &mut out);
    assert_eq!(out, vec![Event::Del { order_id: 0 }, Event::Mod { order_id: 9, qty: 0 }]);
    // a body length that does not fit a machine word
    let mut huge = sbi(0);
    huge.extend(sbi(3));
    huge.extend(sbi(u64::MAX));
    let mut none = Vec::new();
    FastEmdiDecoder::new().decode_messages(&huge, &mut none);
    assert!(none.is_empty());
}

fn itch_msg(typ: u8, body: &[u8]) -> Vec<u8> {
    let mut m = Vec::new();
    m.extend_from_slice(&((body.len() + 1) as u16).to_be_bytes());
    m.push(typ);
    m.extend_from_slice(body);
    m
}

fn itch_head(locate: u16, order_ref: u64) -> Vec<u8> {
    let mut b = Vec::new();
    b.extend_from_slice(&locate.to_be_bytes());
    b.extend_from_slice(&[0, 0]);
    b.extend_from_slice(&[0, 0, 0, 0, 0, 0]);
    b.extend_from_slice(&order_ref.to_be_bytes());
    b
}

fn itch_add(locate: u16, order_ref: u64, side: u8, shares: u32, price: u32) -> Vec<u8> {
    let mut b = itch_head(locate, order_ref);
    b.push(side);
    b.extend_from_slice(&shares.to_be_bytes());
    b.extend_from_slice(b"STOCK   ");
    b.extend_from_slice(&price.to_be_bytes());
    itch_msg(b'A', &b)
}

fn itch_exec(order_ref: u64, shares: u32) -> Vec<u8> {
    let mut b = itch_head(0, order_ref);
    b.extend_from_slice(&shares.to_be_bytes());
    b.extend_from_slice(&1u64.to_be_bytes());
    itch_msg(b'E', &b)
}

#[test]
fn itch_exec_reduces_then_deletes() {
    let mut dec = Itch50Decoder::new();
    let mut book = OrderBook::new(10);
    let mut out = Vec::new();
    dec.decode_messages(&itch_add(5, 10, b'B', 100, 1_000_000), &mut out);
    assert_eq!(out, vec![Event::Add { order_id: 10, instr: 5, px: 1_000_000, qty: 100, side: Side::Bid }]);
    for e in &out {
        book.apply(e);
    }
    out.clear();
    let mut feed = itch_exec(10, 40);
    feed.extend(itch_exec(10, 60));
    dec.decode_messages(&feed, &mut out);
    assert_eq!(
        out,
        vec![
            Event::Mod { order_id: 10, qty: 60 },
            Event::Trade {
                instr: 5,
                px: 1_000_000,
                qty: 40,
                maker_order_id: Some(10),
                taker_side: Some(Side::Ask)
            },
            Event::Del { order_id: 10 },
            Event::Trade {
                instr: 5,
                px: 1_000_000,
                qty: 60,
                maker_order_id: Some(10),
                taker_side: Some(Side::Ask)
            },
        ]
    );
    for e in &out {
        book.apply(e);
    }
    assert_eq!(book.instrument_for_order(10), None);
    assert_eq!(book.order_count(), 0);
    assert_eq!(dec.order_state(10), None);
}

#[test]
fn itch_cancel_delete_replace_trade() {
    let mut dec = Itch50Decoder::new();
    let mut out = Vec::new();
    let mut feed = itch_add(3, 1, b'S', 50, 200);
    // cancel 20 of order 1
    let mut x = itch_head(3, 1);
    x.extend_from_slice(&20u32.to_be_bytes());
    feed.extend(itch_msg(b'X', &x));
    // replace order 1 by order 2
    let mut u = itch_head(3, 1);
    u.extend_from_slice(&2u64.to_be_bytes());
    u.extend_from_slice(&70u32.to_be_bytes());
    u.extend_from_slice(&210u32.to_be_bytes());
    feed.extend(itch_msg(b'U', &u));
    // trade against order 2, which stays
    let mut p = itch_head(3, 2);
    p.push(b'B');
    p.extend_from_slice(&30u32.to_be_bytes());
    p.extend_from_slice(b"STOCK   ");
    p.extend_from_slice(&215u32.to_be_bytes());
    p.extend_from_slice(&9u64.to_be_bytes());
    feed.extend(itch_msg(b'P', &p));
    // delete order 2, then delete it again
    feed.extend(itch_msg(b'D', &itch_head(3, 2)));
    feed.extend(itch_msg(b'D', &itch_head(3, 2)));
    // a trade against an unknown order
    let mut q = itch_head(4, 99);
    q.push(b'S');
    q.extend_from_slice(&1u32.to_be_bytes());
    q.extend_from_slice(b"STOCK   ");
    q.extend_from_slice(&5u32.to_be_bytes());
    q.extend_from_slice(&9u64.to_be_bytes());
    feed.extend(itch_msg(b'P', &q));
    // an unknown type, a stock directory, and a truncated tail
    feed.extend(itch_msg(b'Z', &[1, 2, 3]));
    let mut r = itch_head(3, 0);
    r.truncate(10);
    r.extend_from_slice(b"SYMBOL  ");
    feed.extend(itch_msg(b'R', &r));
    feed.extend_from_slice(&[0, 40, b'A', 1, 2]);
    dec.decode_messages(&feed, &mut out);
    assert_eq!(
        out,
        vec![
            Event::Add { order_id: 1, instr: 3, px: 200, qty: 50, side: Side::Ask },
            Event::Mod { order_id: 1, qty: 30 },
            Event::Del { order_id: 1 },
            Event::Add { order_id: 2, instr: 3, px: 210, qty: 70, side: Side::Ask },
            Event::Mod { order_id: 2, qty: 40 },
            Event::Trade { instr: 3, px: 215, qty: 30, maker_order_id: Some(2), taker_side: Some(Side::Bid) },
            Event::Del { order_id: 2 },
            Event::Trade { instr: 4, px: 5, qty: 1, maker_order_id: Some(99), taker_side: Some(Side::Ask) },
        ]
    );
    assert_eq!(dec.order_state(2), None);
}

#[test]
fn itch_zero_length_ends_the_payload() {
    let mut dec = Itch50Decoder::new();
    let mut out = Vec::new();
    let mut feed = vec![0u8, 0, b'A'];
    feed.extend(itch_add(3, 1, b'S', 50, 200));
    dec.decode_messages(&feed, &mut out);
    assert!(out.is_empty());
}

fn pseudo_random(seed: u64, n: usize) -> Vec<u8> {
    let mut x = seed | 1;
    let mut v = Vec::with_capacity(n);
    for _ in 0..n {
        x ^= x << 13;
        x ^= x >> 7;
        x ^= x << 17;
        v.push((x >> 24) as u8);
    }
    v
}

#[test]
fn decoders_never_yield_more_events_than_bytes() {
    for seed in 1..200u64 {
        let n = (seed as usize * 37) % 4096;
        let payload = pseudo_random(seed, n);
        let mut out = Vec::new();
        EobiSbeDecoder::new().decode_messages(&payload, &mut out);
        assert!(out.len() <= payload.len());
        let mut out = Vec::new();
        FastEmdiDecoder::new().decode_messages(&payload, &mut out);
        assert!(out.len() <= payload.len());
        let mut out = Vec::new();
        Itch50Decoder::new().decode_messages(&payload, &mut out);
        assert!(out.len() <= payload.len());
    }
}
