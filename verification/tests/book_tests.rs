use feed_ingest::export::{BookExport, InstrumentExport, OrderExport};
use feed_ingest::instrument::InstrumentBook;
use feed_ingest::level::Level;
use feed_ingest::orderbook::OrderBook;
use feed_ingest::parser::{Event, Side};
use feed_ingest::side::{merge_rising, SideBook};

#[test]
fn fifo_within_level_and_totals() {
    let mut b = InstrumentBook::new();
    let h1 = b.add(100, 10, Side::Bid);
    let h2 = b.add(100, 20, Side::Bid);
    let lvl = b.get_level(Side::Bid, 100).unwrap();
    let mut it = lvl.iter_fifo(&b.orders);
    assert_eq!(it.next(), Some(h1));
    assert_eq!(it.next(), Some(h2));
    assert_eq!(lvl.total_qty, 30);

    b.set_qty(h1, 5);
    let lvl = b.get_level(Side::Bid, 100).unwrap();
    assert_eq!(lvl.total_qty, 25);

    b.cancel(h2);
    let lvl = b.get_level(Side::Bid, 100).unwrap();
    assert_eq!(lvl.total_qty, 5);
    assert_eq!(lvl.count, 1);
}

#[test]
fn remove_empty_levels() {
    let mut b = InstrumentBook::new();
    let h1 = b.add(101, 10, Side::Ask);
    b.cancel(h1);
    assert!(b.get_level(Side::Ask, 101).is_none());
}

#[test]
fn walk_ends_after_the_last_order() {
    let mut b = InstrumentBook::new();
    let h1 = b.add(7, 1, Side::Ask);
    let lvl = b.get_level(Side::Ask, 7).unwrap();
    let mut it = lvl.iter_fifo(&b.orders);
    assert_eq!(it.next(), Some(h1));
    assert_eq!(it.next(), None);
    assert_eq!(b.fifo_handles(Side::Ask, 7), vec![h1]);
    assert_eq!(b.fifo_handles(Side::Bid, 7), Vec::<usize>::new());
}

#[test]
fn bbo_follows_adds_and_cancels() {
    let mut b = InstrumentBook::new();
    assert_eq!(b.bbo(), (None, None));
    let h1 = b.add(100, 10, Side::Bid);
    let h2 = b.add(102, 7, Side::Bid);
    let h3 = b.add(102, 3, Side::Bid);
    let a1 = b.add(105, 4, Side::Ask);
    let a2 = b.add(104, 6, Side::Ask);
    assert_eq!(b.bbo(), (Some((102, 10)), Some((104, 6))));
    b.cancel(h2);
    assert_eq!(b.bbo(), (Some((102, 3)), Some((104, 6))));
    b.cancel(h3);
    assert_eq!(b.bbo(), (Some((100, 10)), Some((104, 6))));
    b.cancel(a2);
    assert_eq!(b.bbo(), (Some((100, 10)), Some((105, 4))));
    b.set_qty(a1, 9);
    assert_eq!(b.bbo(), (Some((100, 10)), Some((105, 9))));
    b.cancel(h1);
    b.cancel(a1);
    assert_eq!(b.bbo(), (None, None));
}

#[test]
fn handles_are_reused_after_cancel() {
    let mut b = InstrumentBook::new();
    let h1 = b.add(100, 10, Side::Bid);
    b.cancel(h1);
    let h2 = b.add(200, 5, Side::Ask);
    assert_eq!(h1, h2);
    assert_eq!(b.order(h2).unwrap().price, 200);
}

#[test]
fn prices_far_from_the_grid_go_to_overflow() {
    let mut b = InstrumentBook::new();
    // the grid is centred on the first price of a side; its span is 16384
    b.add(1_000_000, 1, Side::Bid);
    b.add(1_000_001, 2, Side::Bid);
    b.add(5, 3, Side::Bid);
    b.add(9_000_000, 4, Side::Bid);
    assert_eq!(b.bbo().0, Some((9_000_000, 4)));
    let (bids, asks) = b.top_n(10);
    assert_eq!(asks.len(), 0);
    assert_eq!(bids.len(), 4);
    // grid levels first, best first; then overflow levels, best first
    assert_eq!(bids.get(0), Some((1_000_001, 2)));
    assert_eq!(bids.get(1), Some((1_000_000, 1)));
    assert_eq!(bids.get(2), Some((9_000_000, 4)));
    assert_eq!(bids.get(3), Some((5, 3)));
    assert_eq!(bids.get(4), None);
    let (two, _) = b.top_n(2);
    assert_eq!(two.len(), 2);
    let (none, _) = b.top_n(0);
    assert_eq!(none.len(), 0);
}

#[test]
fn grid_is_centred_on_the_first_price() {
    let mut b = InstrumentBook::new();
    b.add(100_000, 1, Side::Ask);
    assert!(b.asks.grid.initialized);
    assert_eq!(b.asks.grid.start_price, 100_000 - 8192);
    assert_eq!(b.asks.grid.price_to_idx(100_000), Some(8192));
    assert_eq!(b.asks.grid.price_to_idx(100_000 - 8193), None);
    assert_eq!(b.asks.grid.price_to_idx(100_000 + 8192), None);
    assert_eq!(b.asks.grid.price_to_idx(100_000 + 8191), Some(16383));
    assert!(!b.bids.grid.initialized);
}

#[test]
fn grid_near_the_lowest_price_starts_at_the_lowest_price() {
    let mut b = InstrumentBook::new();
    b.add(i64::MIN + 5, 1, Side::Bid);
    assert_eq!(b.bids.grid.start_price, i64::MIN);
    assert_eq!(b.bbo().0, Some((i64::MIN + 5, 1)));
}

#[test]
fn check_add_rejects_totals_out_of_range() {
    let mut b = InstrumentBook::new();
    b.add(10, i64::MAX, Side::Bid);
    assert!(!b.check_add(10, 1, Side::Bid));
    assert!(b.check_add(10, -1, Side::Bid));
    assert!(b.check_add(11, 1, Side::Bid));
}

#[test]
fn apply_add_mod_del() {
    let mut ob = OrderBook::new(10);
    ob.apply(&Event::Add { order_id: 1, instr: 7, px: 100, qty: 10, side: Side::Bid });
    ob.apply(&Event::Add { order_id: 2, instr: 7, px: 101, qty: 20, side: Side::Ask });
    assert_eq!(ob.order_count(), 2);
    assert_eq!(ob.instrument_for_order(1), Some(7));
    assert_eq!(ob.bbo(), (Some((100, 10)), Some((101, 20))));
    ob.apply(&Event::Mod { order_id: 1, qty: 4 });
    assert_eq!(ob.bbo(), (Some((100, 4)), Some((101, 20))));
    ob.apply(&Event::Mod { order_id: 2, qty: 0 });
    assert_eq!(ob.order_count(), 1);
    assert_eq!(ob.bbo(), (Some((100, 4)), None));
    ob.apply(&Event::Del { order_id: 1 });
    assert_eq!(ob.order_count(), 0);
    assert_eq!(ob.instrument_for_order(1), None);
    assert_eq!(ob.bbo(), (None, None));
    // unknown orders change nothing
    ob.apply(&Event::Del { order_id: 99 });
    ob.apply(&Event::Mod { order_id: 99, qty: 5 });
    ob.apply(&Event::Heartbeat);
    assert_eq!(ob.order_count(), 0);
}

#[test]
fn bbo_is_that_of_the_last_instrument() {
    let mut ob = OrderBook::new(10);
    assert_eq!(ob.bbo(), (None, None));
    ob.apply(&Event::Add { order_id: 1, instr: 1, px: 100, qty: 10, side: Side::Bid });
    ob.apply(&Event::Add { order_id: 2, instr: 2, px: 200, qty: 20, side: Side::Bid });
    assert_eq!(ob.bbo(), (Some((200, 20)), None));
    ob.apply(&Event::Trade { instr: 1, px: 100, qty: 1, maker_order_id: Some(1), taker_side: None });
    assert_eq!(ob.bbo(), (Some((100, 10)), None));
    ob.apply(&Event::Trade { instr: 3, px: 100, qty: 1, maker_order_id: None, taker_side: None });
    assert_eq!(ob.bbo(), (None, None));
}

#[test]
fn trades_reduce_makers_only_when_consumed() {
    let mut ob = OrderBook::new_with_options(10, true);
    ob.apply(&Event::Add { order_id: 1, instr: 1, px: 100, qty: 10, side: Side::Bid });
    ob.apply(&Event::Trade { instr: 1, px: 100, qty: 4, maker_order_id: Some(1), taker_side: Some(Side::Ask) });
    assert_eq!(ob.bbo(), (Some((100, 6)), None));
    ob.apply(&Event::Trade { instr: 1, px: 100, qty: 6, maker_order_id: Some(1), taker_side: Some(Side::Ask) });
    assert_eq!(ob.order_count(), 0);
    assert_eq!(ob.bbo(), (None, None));

    let mut plain = OrderBook::new(10);
    plain.apply(&Event::Add { order_id: 1, instr: 1, px: 100, qty: 10, side: Side::Bid });
    plain.apply(&Event::Trade { instr: 1, px: 100, qty: 4, maker_order_id: Some(1), taker_side: None });
    assert_eq!(plain.bbo(), (Some((100, 10)), None));
    plain.set_consume_trades(true);
    plain.apply(&Event::Trade { instr: 1, px: 100, qty: 4, maker_order_id: Some(1), taker_side: None });
    assert_eq!(plain.bbo(), (Some((100, 6)), None));
}

#[test]
fn try_apply_refuses_overflow_and_leaves_the_book() {
    let mut ob = OrderBook::new(10);
    assert!(ob.try_apply(&Event::Add { order_id: 1, instr: 1, px: 100, qty: i64::MAX, side: Side::Bid }));
    let ev = Event::Add { order_id: 2, instr: 1, px: 100, qty: 1, side: Side::Bid };
    assert!(!ob.check(&ev));
    assert!(!ob.try_apply(&ev));
    assert_eq!(ob.order_count(), 1);
    assert_eq!(ob.bbo(), (Some((100, i64::MAX)), None));
}

#[test]
fn apply_many_applies_in_order_and_stops_at_overflow() {
    let mut ob = OrderBook::new(10);
    let evs = vec![
        Event::Add { order_id: 1, instr: 1, px: 100, qty: 5, side: Side::Bid },
        Event::Add { order_id: 2, instr: 2, px: 50, qty: 5, side: Side::Ask },
        Event::Mod { order_id: 1, qty: 9 },
        Event::Add { order_id: 3, instr: 1, px: 100, qty: i64::MAX, side: Side::Bid },
        Event::Del { order_id: 1 },
    ];
    let n = ob.apply_many_for_instr(1, &evs);
    assert_eq!(n, 3);
    assert_eq!(ob.order_count(), 2);
    let (bids, _) = ob.top_n_of(1, 5).unwrap();
    assert_eq!(bids.get(0), Some((100, 9)));
    assert!(ob.top_n_of(9, 5).is_none());
}

fn orders_of(exp: &BookExport, instr: u32) -> Vec<OrderExport> {
    exp.instruments.iter().find(|i| i.instr == instr).map(|i| i.orders.clone()).unwrap_or_default()
}

#[test]
fn export_lists_bids_then_asks_fifo_within_level() {
    let mut ob = OrderBook::new(10);
    ob.apply(&Event::Add { order_id: 1, instr: 1, px: 100, qty: 10, side: Side::Bid });
    ob.apply(&Event::Add { order_id: 2, instr: 1, px: 101, qty: 20, side: Side::Bid });
    ob.apply(&Event::Add { order_id: 3, instr: 1, px: 100, qty: 30, side: Side::Bid });
    ob.apply(&Event::Add { order_id: 4, instr: 1, px: 103, qty: 40, side: Side::Ask });
    ob.apply(&Event::Add { order_id: 5, instr: 1, px: 102, qty: 50, side: Side::Ask });
    ob.apply(&Event::Add { order_id: 6, instr: 2, px: 7, qty: 1, side: Side::Ask });
    let exp = ob.export();
    assert_eq!(exp.version, 1);
    assert_eq!(exp.instruments.len(), 2);
    let o = orders_of(&exp, 1);
    let ids: Vec<u64> = o.iter().map(|x| x.order_id).collect();
    assert_eq!(ids, vec![2, 1, 3, 5, 4]);
    assert_eq!(o[0], OrderExport { order_id: 2, price: 101, qty: 20, side: Side::Bid });
    assert_eq!(o[4], OrderExport { order_id: 4, price: 103, qty: 40, side: Side::Ask });
    assert_eq!(orders_of(&exp, 2).len(), 1);
}

#[test]
fn export_then_rebuild_gives_the_same_book() {
    let mut ob = OrderBook::new(10);
    for (id, px, qty, side) in [
        (1u64, 100i64, 10i64, Side::Bid),
        (2, 101, 20, Side::Bid),
        (3, 100, 30, Side::Bid),
        (4, 103, 40, Side::Ask),
        (5, 102, 50, Side::Ask),
        (6, 9_000_000, 5, Side::Bid),
    ] {
        ob.apply(&Event::Add { order_id: id, instr: 1, px, qty, side });
    }
    ob.apply(&Event::Del { order_id: 2 });
    ob.apply(&Event::Mod { order_id: 3, qty: 31 });
    let exp = ob.export();
    let rebuilt = OrderBook::from_export(exp.clone()).unwrap();
    assert_eq!(rebuilt.order_count(), ob.order_count());
    assert_eq!(rebuilt.bbo(), ob.bbo());
    let again = rebuilt.export();
    assert_eq!(orders_of(&again, 1), orders_of(&exp, 1));
    let ids: Vec<u64> = orders_of(&again, 1).iter().map(|x| x.order_id).collect();
    assert_eq!(ids, vec![6, 1, 3, 5, 4]);
    let (b1, a1) = ob.top_n_of(1, 10).unwrap();
    let (b2, a2) = rebuilt.top_n_of(1, 10).unwrap();
    assert_eq!(b1.len(), b2.len());
    assert_eq!(a1.len(), a2.len());
    for i in 0..a1.len() {
        assert_eq!(a1.get(i), a2.get(i));
    }
}

#[test]
fn export_lists_levels_by_price_also_past_the_grid() {
    let mut ob = OrderBook::new(10);
    // the grids are centred on 1_000_000; the other prices lie past them
    for (id, px, qty, side) in [
        (1u64, 1_000_000i64, 1i64, Side::Bid),
        (2, 9_000_000, 2, Side::Bid),
        (3, 5, 3, Side::Bid),
        (4, 1_000_001, 4, Side::Bid),
        (5, 9_000_000, 5, Side::Bid),
        (6, 1_000_000, 6, Side::Ask),
        (7, 7, 7, Side::Ask),
        (8, 9_999_999, 8, Side::Ask),
        (9, 1_000_002, 9, Side::Ask),
    ] {
        ob.apply(&Event::Add { order_id: id, instr: 3, px, qty, side });
    }
    let o = orders_of(&ob.export(), 3);
    let got: Vec<(u64, i64)> = o.iter().map(|x| (x.order_id, x.price)).collect();
    assert_eq!(
        got,
        vec![
            (2, 9_000_000),
            (5, 9_000_000),
            (4, 1_000_001),
            (1, 1_000_000),
            (3, 5),
            (7, 7),
            (6, 1_000_000),
            (9, 1_000_002),
            (8, 9_999_999),
        ]
    );
    assert!(o[..5].iter().all(|x| x.side == Side::Bid));
    assert!(o[5..].iter().all(|x| x.side == Side::Ask));
    // the depth list follows the walk: the grid first, then the overflow store
    let (bids, _) = ob.top_n_of(3, 10).unwrap();
    assert_eq!(bids.get(0), Some((1_000_001, 4)));
    assert_eq!(bids.get(2), Some((9_000_000, 7)));
    let rebuilt = OrderBook::from_export(ob.export()).unwrap();
    assert_eq!(orders_of(&rebuilt.export(), 3), o);
}

#[test]
fn merge_rising_keeps_every_price_once_in_order() {
    assert_eq!(merge_rising(&vec![1, 4, 9], &vec![-3, 4, 5, 12]), vec![-3, 1, 4, 5, 9, 12]);
    assert_eq!(merge_rising(&vec![], &vec![2]), vec![2]);
    assert_eq!(merge_rising(&vec![], &vec![]), Vec::<i64>::new());
    let mut s = SideBook::new(1, 8);
    for p in [100i64, 500, 99, -7] {
        let mut l = Level::empty();
        l.count = 1;
        s.put(p, l);
    }
    assert_eq!(s.sorted_prices(true), vec![500, 100, 99, -7]);
    assert_eq!(s.sorted_prices(false), vec![-7, 99, 100, 500]);
    assert_eq!(s.prices(true), vec![100, 99, 500, -7]);
}

#[test]
fn rebuild_refuses_an_export_that_overflows() {
    let exp = BookExport {
        version: 1,
        instruments: vec![InstrumentExport {
            instr: 1,
            orders: vec![
                OrderExport { order_id: 1, price: 5, qty: i64::MAX, side: Side::Bid },
                OrderExport { order_id: 2, price: 5, qty: 1, side: Side::Bid },
            ],
        }],
    };
    assert!(OrderBook::from_export(exp).is_none());
    let empty = OrderBook::from_export(BookExport { version: 1, instruments: vec![] }).unwrap();
    assert_eq!(empty.order_count(), 0);
}

#[test]
fn an_order_id_added_twice_leaves_the_first_order_in_the_book() {
    let mut ob = OrderBook::new(10);
    ob.apply(&Event::Add { order_id: 1, instr: 1, px: 100, qty: 10, side: Side::Bid });
    ob.apply(&Event::Add { order_id: 1, instr: 1, px: 100, qty: 5, side: Side::Bid });
    assert_eq!(ob.order_count(), 1);
    assert_eq!(ob.bbo().0, Some((100, 15)));
    // only the order that the index names is exported
    assert_eq!(orders_of(&ob.export(), 1).len(), 1);
}

#[test]
fn best_ask_is_found_in_overflow_too() {
    let mut b = InstrumentBook::new();
    let near = b.add(1_000_000, 1, Side::Ask);
    b.add(9_000_000, 2, Side::Ask);
    let low = b.add(7, 3, Side::Ask);
    b.add(8, 4, Side::Ask);
    assert_eq!(b.bbo().1, Some((7, 3)));
    b.cancel(low);
    assert_eq!(b.bbo().1, Some((8, 4)));
    b.cancel(near);
    assert_eq!(b.bbo().1, Some((8, 4)));
    let (_, asks) = b.top_n(5);
    assert_eq!(asks.get(0), Some((8, 4)));
    assert_eq!(asks.get(1), Some((9_000_000, 2)));
    assert_eq!(asks.len(), 2);
}

fn replay(events: &[Event]) -> (BookExport, (Option<(i64, i64)>, Option<(i64, i64)>), usize) {
    let mut ob = OrderBook::new_with_options(10, true);
    for e in events {
        assert!(ob.try_apply(e));
    }
    let mut exp = ob.export();
    exp.instruments.sort_by_key(|i| i.instr);
    (exp, ob.bbo(), ob.order_count())
}

#[test]
fn the_same_events_give_the_same_books() {
    let events = vec![
        Event::Add { order_id: 1, instr: 1, px: 100, qty: 10, side: Side::Bid },
        Event::Add { order_id: 2, instr: 1, px: 100, qty: 20, side: Side::Bid },
        Event::Add { order_id: 3, instr: 2, px: 50, qty: 5, side: Side::Ask },
        Event::Del { order_id: 1 },
        Event::Add { order_id: 4, instr: 1, px: 100, qty: 7, side: Side::Bid },
        Event::Mod { order_id: 2, qty: 19 },
        Event::Trade { instr: 1, px: 100, qty: 3, maker_order_id: Some(4), taker_side: Some(Side::Ask) },
        Event::Add { order_id: 2, instr: 1, px: 99, qty: 1, side: Side::Bid },
        Event::Heartbeat,
    ];
    let (e1, bbo1, n1) = replay(&events);
    let (e2, bbo2, n2) = replay(&events);
    assert_eq!((bbo1, n1), (bbo2, n2));
    assert_eq!(e1.instruments.len(), e2.instruments.len());
    for (a, b) in e1.instruments.iter().zip(e2.instruments.iter()) {
        assert_eq!(a.instr, b.instr);
        assert_eq!(a.orders, b.orders);
    }
    let ids: Vec<u64> = e1.instruments[0].orders.iter().map(|o| o.order_id).collect();
    // order 2 at 100 lost its name when the id was added again at 99
    assert_eq!(ids, vec![4, 2]);
    assert_eq!(bbo1.0, Some((100, 23)));
}

#[test]
fn a_new_book_has_the_default_grids_not_yet_centred() {
    let b = InstrumentBook::with_capacity(8);
    for side in [&b.bids, &b.asks] {
        assert!(!side.grid.initialized);
        assert_eq!(side.grid.tick, 1);
        assert_eq!(side.grid.slots.len(), 16384);
        assert!(side.overflow.map.is_empty());
    }
    assert_eq!(b.bbo(), (None, None));
    assert_eq!(b.orders.len(), 0);
}
