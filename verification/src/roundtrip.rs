//! What an export says of the books, and why rebuilding from an export gives
//! the same books back.
//!
//! Handles are an accident of the node store: two books are the same if, at
//! every price level of every instrument, the same orders rest in the same
//! order with the same quantities. `level_fifo` is that view of the books.
use vstd::prelude::*;
use crate::export::{add_events, book_orders, chain_orders, export_events, listable, owner, side_orders, BookExport, InstrumentExport, OrderExport};
use crate::orderbook::{lemma_event_keeps_wf, rebuilt_start, BookState, OrderBook};
use crate::parser::{Event, Side};
use crate::shape::{chain_ok, lemma_member_key, linked};
use crate::side::{lemma_price_order, lemma_price_order_unique, price_order};

verus! {

/// The key of a price level among all books: instrument, side and price.
pub type AbsKey = (u32, Side, i64);

/// A resting order as the outside sees it: order id and quantity.
pub type Entry = (u64, i64);

/// Every order in a book is named by the index.
pub open spec fn no_orphans(st: BookState) -> bool {
    forall|i: u32, h: usize|
        #![trigger st.books[i].nodes.contains_key(h)]
        st.books.contains_key(i) && st.books[i].nodes.contains_key(h) ==> owner(st.index, (i, h)) is Some
}

/// The order under handle `h` of instrument `i` as the outside sees it.
pub open spec fn entry_of(st: BookState, i: u32, h: usize) -> Entry {
    (owner(st.index, (i, h)).unwrap(), st.shape_of(i).nodes[h].qty)
}

/// The orders resting at level `k`, oldest first; none if there is no such level.
pub open spec fn level_fifo(st: BookState, k: AbsKey) -> Seq<Entry> {
    st.shape_of(k.0).chain_of((k.1, k.2)).map_values(|h: usize| entry_of(st, k.0, h))
}

/// The orders that the add events among `evs` bring to level `k`, in order.
pub open spec fn entries_at(evs: Seq<Event>, k: AbsKey) -> Seq<Entry>
    decreases evs.len(),
{
    if evs.len() == 0 {
        Seq::empty()
    } else {
        let rest = entries_at(evs.drop_last(), k);
        match evs.last() {
            Event::Add { order_id, instr, px, qty, side } => if (instr, side, px) == k {
                rest.push((order_id, qty))
            } else {
                rest
            },
            _ => rest,
        }
    }
}

/// All of `evs` are adds.
pub open spec fn all_adds(evs: Seq<Event>) -> bool {
    forall|j: int| 0 <= j < evs.len() ==> (#[trigger] evs[j]) is Add
}

/// No two of the adds `evs` carry the same order id.
pub open spec fn distinct_ids(evs: Seq<Event>) -> bool {
    forall|x: int, y: int|
        #![trigger evs[x], evs[y]]
        0 <= x < y < evs.len() ==> evs[x]->Add_order_id != evs[y]->Add_order_id
}

/// An order id that the index holds is the owner of the place it names.
pub proof fn lemma_owner(index: Map<u64, (u32, usize)>, o: u64)
    requires
        index.contains_key(o),
        forall|o1: u64, o2: u64|
            #![trigger index.contains_key(o1), index.contains_key(o2)]
            index.contains_key(o1) && index.contains_key(o2) && o1 != o2 ==> index[o1] != index[o2],
    ensures
        owner(index, index[o]) == Some(o),
{
    let loc = index[o];
    let w = choose|w: u64| index.contains_key(w) && index[w] == loc;
    assert(index.contains_key(w) && index.contains_key(o));
}

/// The owner of a place is an order id that the index maps to the place.
pub proof fn lemma_owner_is_indexed(index: Map<u64, (u32, usize)>, loc: (u32, usize))
    requires
        owner(index, loc) is Some,
    ensures
        index.contains_key(owner(index, loc).unwrap()),
        index[owner(index, loc).unwrap()] == loc,
{
}

/// Adding an order under a new order id appends it to the FIFO of its level
/// and leaves every other level as it was.
pub proof fn lemma_add_step(st: BookState, ev: Event, h: usize)
    requires
        st.wf(),
        no_orphans(st),
        ev is Add,
        !st.index.contains_key(ev->Add_order_id),
        st.accepts(ev),
        !st.shape_of(ev->Add_instr).nodes.contains_key(h),
    ensures
        st.after_event(ev, h).wf(),
        no_orphans(st.after_event(ev, h)),
        forall|o: u64| st.after_event(ev, h).index.contains_key(o) <==> (o == ev->Add_order_id || st.index.contains_key(o)),
        forall|k: AbsKey| #[trigger]
            level_fifo(st.after_event(ev, h), k) == if k == (ev->Add_instr, ev->Add_side, ev->Add_px) {
                level_fifo(st, k).push((ev->Add_order_id, ev->Add_qty))
            } else {
                level_fifo(st, k)
            },
{
    let st2 = st.after_event(ev, h);
    let oid = ev->Add_order_id;
    let instr = ev->Add_instr;
    let k0 = (ev->Add_side, ev->Add_px);
    let sh = st.shape_of(instr);
    let sh2 = st2.shape_of(instr);
    lemma_event_keeps_wf(st, ev, h);
    assert(st2.books.contains_key(instr));
    assert(sh2 == sh.added(h, ev->Add_px, ev->Add_qty, ev->Add_side));
    // who owns what afterwards
    assert(st2.index.contains_key(oid));
    lemma_owner(st2.index, oid);
    assert forall|i: u32, x: usize| st.books.contains_key(i) && st.books[i].nodes.contains_key(x) implies owner(
        st2.index,
        (i, x),
    ) == owner(st.index, (i, x)) by {
        let o = owner(st.index, (i, x)).unwrap();
        lemma_owner_is_indexed(st.index, (i, x));
        assert(st2.index.contains_key(o) && st2.index[o] == (i, x));
        lemma_owner(st2.index, o);
    }
    // the tail of the level, if there is one, is an order of the book
    if sh.level_of((k0.0, k0.1)).tail is Some {
        assert(sh.levels(k0.0).contains_key(k0.1));
        assert(sh.fifo.contains_key(k0) <==> sh.levels(k0.0).contains_key(k0.1));
        assert(chain_ok(sh.nodes, k0, sh.fifo[k0], sh.levels(k0.0)[k0.1]));
        assert(linked(sh.nodes, k0, sh.fifo[k0], sh.fifo[k0].len() - 1));
    }
    assert forall|i: u32, x: usize|
        #![trigger st2.books[i].nodes.contains_key(x)]
        st2.books.contains_key(i) && st2.books[i].nodes.contains_key(x) implies owner(st2.index, (i, x)) is Some by {
        if i == instr && x == h {
        } else {
            assert(st.books.contains_key(i) && st.books[i].nodes.contains_key(x));
        }
    }
    assert forall|k: AbsKey| #[trigger]
        level_fifo(st2, k) == if k == (instr, k0.0, k0.1) {
            level_fifo(st, k).push((oid, ev->Add_qty))
        } else {
            level_fifo(st, k)
        } by {
        let c = st.shape_of(k.0).chain_of((k.1, k.2));
        let c2 = st2.shape_of(k.0).chain_of((k.1, k.2));
        assert forall|j: int| 0 <= j < c.len() implies entry_of(st2, k.0, c[j]) == entry_of(st, k.0, c[j]) by {
            assert(st.books.contains_key(k.0));
            lemma_member_key(st.books[k.0], (k.1, k.2), j);
            assert(st.books[k.0].nodes.contains_key(c[j]));
        }
        if k == (instr, k0.0, k0.1) {
            assert(c2 == c.push(h));
            assert(entry_of(st2, instr, h) == (oid, ev->Add_qty));
            assert(level_fifo(st2, k) =~= level_fifo(st, k).push((oid, ev->Add_qty)));
        } else {
            assert(c2 == c);
            assert(level_fifo(st2, k) =~= level_fifo(st, k));
        }
    }
}

/// The state that a rebuild starts from is sound and holds nothing.
pub proof fn lemma_start(k: AbsKey)
    ensures
        rebuilt_start().wf(),
        no_orphans(rebuilt_start()),
        level_fifo(rebuilt_start(), k) == Seq::<Entry>::empty(),
{
    assert(level_fifo(rebuilt_start(), k) =~= Seq::<Entry>::empty());
}

/// Replaying adds with distinct order ids from nothing puts at every level
/// exactly the orders that the adds bring there, in their order.
pub proof fn lemma_replay(evs: Seq<Event>, end: BookState)
    requires
        all_adds(evs),
        distinct_ids(evs),
        rebuilt_start().reaches(evs, end),
    ensures
        end.wf(),
        no_orphans(end),
        forall|o: u64| end.index.contains_key(o) <==> exists|j: int| 0 <= j < evs.len() && (#[trigger] evs[j])->Add_order_id == o,
        forall|k: AbsKey| #[trigger] level_fifo(end, k) == entries_at(evs, k),
    decreases evs.len(),
{
    if evs.len() == 0 {
        assert forall|k: AbsKey| #[trigger] level_fifo(end, k) == entries_at(evs, k) by {
            lemma_start(k);
        }
        lemma_start((0, Side::Bid, 0));
    } else {
        let pre = evs.drop_last();
        let ev = evs.last();
        let mid = choose|mid: BookState|
            rebuilt_start().reaches(pre, mid) && mid.accepts(ev) && #[trigger] mid.leads_to(ev, end);
        assert forall|x: int, y: int| 0 <= x < y < pre.len() implies pre[x]->Add_order_id != pre[y]->Add_order_id by {
            assert(pre[x] == evs[x] && pre[y] == evs[y]);
        }
        assert forall|j: int| 0 <= j < pre.len() implies (#[trigger] pre[j]) is Add by {
            assert(pre[j] == evs[j]);
        }
        lemma_replay(pre, mid);
        let h = end.handle_of(ev);
        assert(ev == evs[evs.len() - 1]);
        if mid.index.contains_key(ev->Add_order_id) {
            let j = choose|j: int| 0 <= j < pre.len() && (#[trigger] pre[j])->Add_order_id == ev->Add_order_id;
            assert(pre[j] == evs[j]);
            assert(evs[j]->Add_order_id != evs[evs.len() - 1]->Add_order_id);
        }
        lemma_add_step(mid, ev, h);
        assert forall|o: u64| end.index.contains_key(o) <==> exists|j: int|
            0 <= j < evs.len() && (#[trigger] evs[j])->Add_order_id == o by {
            if end.index.contains_key(o) {
                if o == ev->Add_order_id {
                    assert(evs[evs.len() - 1]->Add_order_id == o);
                } else {
                    let j = choose|j: int| 0 <= j < pre.len() && (#[trigger] pre[j])->Add_order_id == o;
                    assert(evs[j]->Add_order_id == o);
                }
            }
            if exists|j: int| 0 <= j < evs.len() && (#[trigger] evs[j])->Add_order_id == o {
                let j = choose|j: int| 0 <= j < evs.len() && (#[trigger] evs[j])->Add_order_id == o;
                if j < pre.len() {
                    assert(pre[j]->Add_order_id == o);
                }
            }
        }
        assert forall|k: AbsKey| #[trigger] level_fifo(end, k) == entries_at(evs, k) by {
            assert(level_fifo(mid, k) == entries_at(pre, k));
        }
    }
}

/// The orders that two runs of events bring to a level are those of the
/// first run followed by those of the second.
pub proof fn lemma_entries_concat(a: Seq<Event>, b: Seq<Event>, k: AbsKey)
    ensures
        entries_at(a + b, k) == entries_at(a, k) + entries_at(b, k),
    decreases b.len(),
{
    if b.len() == 0 {
        assert(a + b =~= a);
        assert(entries_at(a, k) + entries_at(b, k) =~= entries_at(a, k));
    } else {
        assert((a + b).drop_last() =~= a + b.drop_last());
        assert((a + b).last() == b.last());
        lemma_entries_concat(a, b.drop_last(), k);
        let r = entries_at(a, k) + entries_at(b.drop_last(), k);
        match b.last() {
            Event::Add { order_id, instr, px, qty, side } => {
                if (instr, side, px) == k {
                    assert(r.push((order_id, qty)) =~= entries_at(a, k) + entries_at(b.drop_last(), k).push(
                        (order_id, qty),
                    ));
                }
            },
            _ => {},
        }
    }
}

/// An add among `evs` is found among the orders that `evs` bring to its
/// level, and of two adds to the same level the earlier is found first.
pub proof fn lemma_entry_position(evs: Seq<Event>, x: int)
    requires
        0 <= x < evs.len(),
        evs[x] is Add,
    ensures
        ({
            let k = (evs[x]->Add_instr, evs[x]->Add_side, evs[x]->Add_px);
            let a = entries_at(evs.take(x), k).len() as int;
            &&& a < entries_at(evs, k).len()
            &&& entries_at(evs, k)[a] == (evs[x]->Add_order_id, evs[x]->Add_qty)
            &&& forall|y: int| 0 <= y <= x ==> entries_at(evs.take(y), k).len() <= a
        }),
    decreases evs.len(),
{
    let k = (evs[x]->Add_instr, evs[x]->Add_side, evs[x]->Add_px);
    let pre = evs.take(x);
    let post = evs.skip(x + 1);
    let one = seq![evs[x]];
    assert(evs =~= pre + one + post);
    lemma_entries_concat(pre + one, post, k);
    lemma_entries_concat(pre, one, k);
    assert(one.drop_last() =~= Seq::<Event>::empty());
    assert(entries_at(one, k) =~= seq![(evs[x]->Add_order_id, evs[x]->Add_qty)]) by {
        reveal_with_fuel(entries_at, 2);
    }
    assert forall|y: int| 0 <= y <= x implies entries_at(evs.take(y), k).len() <= entries_at(pre, k).len() by {
        assert(pre =~= evs.take(y) + evs.subrange(y, x));
        lemma_entries_concat(evs.take(y), evs.subrange(y, x), k);
    }
}

/// The add events of a run of orders of one instrument, order by order.
pub proof fn lemma_add_events_concat(instr: u32, a: Seq<OrderExport>, b: Seq<OrderExport>)
    ensures
        add_events(instr, a + b) == add_events(instr, a) + add_events(instr, b),
{
    assert(add_events(instr, a + b) =~= add_events(instr, a) + add_events(instr, b));
}

/// What the exported orders of a chain bring to a level: the chain's orders
/// to the chain's own level, nothing to any other.
pub proof fn lemma_chain_entries(st: BookState, instr: u32, side: Side, price: i64, c: Seq<usize>, k: AbsKey)
    requires
        forall|j: int| 0 <= j < c.len() ==> owner(st.index, (instr, #[trigger] c[j])) is Some,
    ensures
        entries_at(add_events(instr, chain_orders(st.shape_of(instr), st.index, instr, side, price, c)), k) == if k
            == (instr, side, price) {
            c.map_values(|h: usize| entry_of(st, instr, h))
        } else {
            Seq::<Entry>::empty()
        },
        chain_orders(st.shape_of(instr), st.index, instr, side, price, c).len() == c.len(),
    decreases c.len(),
{
    let sh = st.shape_of(instr);
    let orders = chain_orders(sh, st.index, instr, side, price, c);
    if c.len() == 0 {
        assert(add_events(instr, orders) =~= Seq::<Event>::empty());
        assert(c.map_values(|h: usize| entry_of(st, instr, h)) =~= Seq::<Entry>::empty());
    } else {
        let d = c.drop_last();
        assert forall|j: int| 0 <= j < d.len() implies owner(st.index, (instr, #[trigger] d[j])) is Some by {
            assert(d[j] == c[j]);
        }
        lemma_chain_entries(st, instr, side, price, d, k);
        let rest = chain_orders(sh, st.index, instr, side, price, d);
        assert(owner(st.index, (instr, c[c.len() - 1])) is Some);
        let o = owner(st.index, (instr, c.last())).unwrap();
        let oe = OrderExport { order_id: o, price, qty: sh.nodes[c.last()].qty, side };
        assert(orders == rest.push(oe));
        let evs = add_events(instr, orders);
        assert(evs.drop_last() =~= add_events(instr, rest));
        assert(evs.last() == Event::Add { order_id: o, instr, px: price, qty: oe.qty, side });
        if k == (instr, side, price) {
            assert(c.map_values(|h: usize| entry_of(st, instr, h)) =~= d.map_values(
                |h: usize| entry_of(st, instr, h),
            ).push(entry_of(st, instr, c.last())));
        }
    }
}

/// What the exported orders of the levels at `prices` bring to a level: the
/// orders of the level itself if it is one of them, else nothing.
pub proof fn lemma_side_entries(st: BookState, instr: u32, side: Side, prices: Seq<i64>, k: AbsKey)
    requires
        st.wf(),
        no_orphans(st),
        st.books.contains_key(instr),
        prices.no_duplicates(),
    ensures
        entries_at(add_events(instr, side_orders(st.shape_of(instr), st.index, instr, side, prices)), k) == if k.0
            == instr && k.1 == side && prices.contains(k.2) {
            level_fifo(st, k)
        } else {
            Seq::<Entry>::empty()
        },
    decreases prices.len(),
{
    let sh = st.shape_of(instr);
    if prices.len() == 0 {
        assert(add_events(instr, side_orders(sh, st.index, instr, side, prices)) =~= Seq::<Event>::empty());
    } else {
        let pre = prices.drop_last();
        let p = prices.last();
        let c = sh.chain_of((side, p));
        assert(pre.no_duplicates());
        lemma_side_entries(st, instr, side, pre, k);
        assert forall|j: int| 0 <= j < c.len() implies owner(st.index, (instr, #[trigger] c[j])) is Some by {
            lemma_member_key(sh, (side, p), j);
            assert(st.books[instr].nodes.contains_key(c[j]));
        }
        lemma_chain_entries(st, instr, side, p, c, k);
        let a = side_orders(sh, st.index, instr, side, pre);
        let b = chain_orders(sh, st.index, instr, side, p, c);
        lemma_add_events_concat(instr, a, b);
        lemma_entries_concat(add_events(instr, a), add_events(instr, b), k);
        assert(prices[prices.len() - 1] == p);
        if k.0 == instr && k.1 == side {
            if k.2 == p {
                assert(prices.contains(k.2));
                if pre.contains(k.2) {
                    let j = choose|j: int| 0 <= j < pre.len() && pre[j] == k.2;
                    assert(prices[j] == prices[prices.len() - 1]);
                }
                assert(Seq::<Entry>::empty() + level_fifo(st, k) =~= level_fifo(st, k));
            } else {
                if prices.contains(k.2) {
                    let j = choose|j: int| 0 <= j < prices.len() && prices[j] == k.2;
                    assert(pre[j] == k.2);
                }
                if pre.contains(k.2) {
                    let j = choose|j: int| 0 <= j < pre.len() && pre[j] == k.2;
                    assert(prices[j] == k.2);
                }
                assert(entries_at(add_events(instr, a), k) + Seq::<Entry>::empty() =~= entries_at(
                    add_events(instr, a),
                    k,
                ));
            }
        } else {
            assert(Seq::<Entry>::empty() + Seq::<Entry>::empty() =~= Seq::<Entry>::empty());
        }
    }
}

/// A level that a sound book does not have holds no order.
pub proof fn lemma_absent_level(st: BookState, k: AbsKey)
    requires
        st.wf(),
        !st.books.contains_key(k.0) || !st.books[k.0].levels(k.1).contains_key(k.2),
    ensures
        level_fifo(st, k) == Seq::<Entry>::empty(),
{
    if st.books.contains_key(k.0) {
        let sh = st.books[k.0];
        let lk = (k.1, k.2);
        assert(sh.fifo.contains_key(lk) <==> sh.levels(lk.0).contains_key(lk.1));
    }
    assert(level_fifo(st, k) =~= Seq::<Entry>::empty());
}

/// What the exported orders of an instrument bring to a level: the orders
/// of the level itself if it is a level of that instrument, else nothing.
pub proof fn lemma_book_entries(ob: OrderBook, instr: u32, k: AbsKey)
    requires
        ob.wf(),
        no_orphans(ob@),
        ob@.books.contains_key(instr),
        listable(ob@.books[instr]),
    ensures
        entries_at(add_events(instr, book_orders(ob@.books[instr], ob@.index, instr)), k) == if k.0 == instr {
            level_fifo(ob@, k)
        } else {
            Seq::<Entry>::empty()
        },
{
    let st = ob@;
    let b = ob.book(instr);
    ob.lemma_book(instr);
    ob.lemma_wf_state();
    b.lemma_sides_nonempty();
    let pb = price_order(b@.bids, true);
    let pa = price_order(b@.asks, false);
    lemma_price_order(b@.bids, true, pb);
    lemma_price_order(b@.asks, false, pa);
    lemma_side_entries(st, instr, Side::Bid, pb, k);
    lemma_side_entries(st, instr, Side::Ask, pa, k);
    let ob_ = side_orders(st.shape_of(instr), st.index, instr, Side::Bid, pb);
    let oa = side_orders(st.shape_of(instr), st.index, instr, Side::Ask, pa);
    lemma_add_events_concat(instr, ob_, oa);
    lemma_entries_concat(add_events(instr, ob_), add_events(instr, oa), k);
    let e = Seq::<Entry>::empty();
    if k.0 == instr {
        match k.1 {
            Side::Bid => {
                if !pb.contains(k.2) {
                    assert(!b.bids@.contains_key(k.2));
                    lemma_absent_level(st, k);
                }
                assert(entries_at(add_events(instr, ob_), k) + e =~= entries_at(add_events(instr, ob_), k));
            },
            Side::Ask => {
                if !pa.contains(k.2) {
                    assert(!b.asks@.contains_key(k.2));
                    lemma_absent_level(st, k);
                }
                assert(e + entries_at(add_events(instr, oa), k) =~= entries_at(add_events(instr, oa), k));
            },
        }
    } else {
        assert(e + e =~= e);
    }
}

/// What the first `n` entries of an export bring to a level: the orders of
/// the level itself if its instrument is among them, else nothing.
pub proof fn lemma_export_entries(ob: OrderBook, exp: BookExport, n: int, k: AbsKey)
    requires
        ob.wf(),
        no_orphans(ob@),
        ob.exports(exp),
        0 <= n <= exp.instruments@.len(),
    ensures
        entries_at(export_events(exp.instruments@, n), k) == if exists|j: int|
            0 <= j < n && (#[trigger] exp.instruments@[j]).instr == k.0 {
            level_fifo(ob@, k)
        } else {
            Seq::<Entry>::empty()
        },
    decreases n,
{
    let ins = exp.instruments@;
    let e = Seq::<Entry>::empty();
    if n > 0 {
        lemma_export_entries(ob, exp, n - 1, k);
        let last = ins[n - 1];
        assert(ob@.books.contains_key(last.instr));
        assert(listable(ob@.books[last.instr]));
        lemma_book_entries(ob, last.instr, k);
        let a = export_events(ins, n - 1);
        let b = add_events(last.instr, last.orders@);
        lemma_entries_concat(a, b, k);
        if last.instr == k.0 {
            if exists|j: int| 0 <= j < n - 1 && (#[trigger] ins[j]).instr == k.0 {
                let j = choose|j: int| 0 <= j < n - 1 && (#[trigger] ins[j]).instr == k.0;
                assert(ins[j].instr != ins[n - 1].instr);
            }
            assert(e + level_fifo(ob@, k) =~= level_fifo(ob@, k));
        } else {
            if exists|j: int| 0 <= j < n && (#[trigger] ins[j]).instr == k.0 {
                let j = choose|j: int| 0 <= j < n && (#[trigger] ins[j]).instr == k.0;
                assert(j < n - 1);
            }
            assert(entries_at(a, k) + e =~= entries_at(a, k));
        }
    }
}

/// An export brings to every level exactly the orders that rest there.
pub proof fn lemma_export_is_faithful(ob: OrderBook, exp: BookExport, k: AbsKey)
    requires
        ob.wf(),
        no_orphans(ob@),
        ob.exports(exp),
    ensures
        entries_at(export_events(exp.instruments@, exp.instruments@.len() as int), k) == level_fifo(ob@, k),
{
    let ins = exp.instruments@;
    lemma_export_entries(ob, exp, ins.len() as int, k);
    ob.lemma_wf_state();
    if !(exists|j: int| 0 <= j < ins.len() && (#[trigger] ins[j]).instr == k.0) {
        if ob@.books.contains_key(k.0) {
            let i = choose|i: int| 0 <= i < ins.len() && #[trigger] ins[i].instr == k.0;
            assert(ins[i].instr == k.0);
        }
        lemma_absent_level(ob@, k);
    }
}

/// The events of an export are adds.
pub proof fn lemma_export_adds(instruments: Seq<InstrumentExport>, n: int)
    ensures
        all_adds(export_events(instruments, n)),
    decreases n,
{
    if 0 < n <= instruments.len() {
        lemma_export_adds(instruments, n - 1);
    }
}

/// An order of a level of a sound state without orphans is indexed under
/// its order id at its place in the level's chain.
pub proof fn lemma_entry_place(st: BookState, k: AbsKey, a: int)
    requires
        st.wf(),
        no_orphans(st),
        0 <= a < level_fifo(st, k).len(),
    ensures
        st.books.contains_key(k.0),
        st.books[k.0].fifo.contains_key((k.1, k.2)),
        a < st.books[k.0].fifo[(k.1, k.2)].len(),
        st.index.contains_key(level_fifo(st, k)[a].0),
        st.index[level_fifo(st, k)[a].0] == (k.0, st.books[k.0].fifo[(k.1, k.2)][a]),
{
    let sh = st.shape_of(k.0);
    let c = sh.chain_of((k.1, k.2));
    assert(c.len() == level_fifo(st, k).len());
    lemma_member_key(sh, (k.1, k.2), a);
    assert(st.books[k.0].nodes.contains_key(c[a]));
    lemma_owner_is_indexed(st.index, (k.0, c[a]));
}

/// No order id occurs twice in an export of books without orphans.
pub proof fn lemma_export_distinct(ob: OrderBook, exp: BookExport)
    requires
        ob.wf(),
        no_orphans(ob@),
        ob.exports(exp),
    ensures
        distinct_ids(export_events(exp.instruments@, exp.instruments@.len() as int)),
{
    let st = ob@;
    ob.lemma_wf_state();
    let evs = export_events(exp.instruments@, exp.instruments@.len() as int);
    lemma_export_adds(exp.instruments@, exp.instruments@.len() as int);
    assert forall|x: int, y: int| 0 <= x < y < evs.len() implies evs[x]->Add_order_id
        != evs[y]->Add_order_id by {
        if evs[x]->Add_order_id == evs[y]->Add_order_id {
            let kx = (evs[x]->Add_instr, evs[x]->Add_side, evs[x]->Add_px);
            let ky = (evs[y]->Add_instr, evs[y]->Add_side, evs[y]->Add_px);
            lemma_entry_position(evs, x);
            lemma_entry_position(evs, y);
            lemma_export_is_faithful(ob, exp, kx);
            lemma_export_is_faithful(ob, exp, ky);
            let ax = entries_at(evs.take(x), kx).len() as int;
            let ay = entries_at(evs.take(y), ky).len() as int;
            lemma_entry_place(st, kx, ax);
            lemma_entry_place(st, ky, ay);
            // one order id names one place, so both adds go to one level
            let sh = st.books[kx.0];
            lemma_member_key(sh, (kx.1, kx.2), ax);
            lemma_member_key(sh, (ky.1, ky.2), ay);
            assert(kx == ky);
            // and the earlier add comes earlier in the level
            let nx = evs.take(x + 1);
            assert(nx.drop_last() =~= evs.take(x));
            assert(nx.last() == evs[x]);
            assert(entries_at(nx, kx).len() == ax + 1);
            assert(ax < ay);
            let c = sh.fifo[(kx.1, kx.2)];
            assert(sh.fifo.contains_key((kx.1, kx.2)));
            assert(chain_ok(sh.nodes, (kx.1, kx.2), c, sh.levels(kx.1)[kx.2]));
            assert(c[ax] != c[ay]);
        }
    }
}

/// Every entry that events bring to a level stems from one of the events.
pub proof fn lemma_entry_source(evs: Seq<Event>, k: AbsKey, a: int)
    requires
        0 <= a < entries_at(evs, k).len(),
    ensures
        exists|j: int| 0 <= j < evs.len() && (#[trigger] evs[j]) is Add && evs[j]->Add_order_id == entries_at(evs, k)[a].0,
    decreases evs.len(),
{
    if evs.len() > 0 {
        let pre = evs.drop_last();
        if a < entries_at(pre, k).len() {
            lemma_entry_source(pre, k, a);
            let j = choose|j: int| 0 <= j < pre.len() && (#[trigger] pre[j]) is Add && pre[j]->Add_order_id == entries_at(pre, k)[a].0;
            assert(evs[j] == pre[j]);
        } else {
            assert(evs[evs.len() - 1] is Add);
        }
    }
}

/// Books rebuilt from an export are the books that were exported.
///
/// Let `exp` be an export of sound books in which the index names every
/// order, and let `end` be any state that replaying the export from nothing
/// can lead to. Then `end` is sound, it indexes exactly the order ids of the
/// exported books, and at every price level of every instrument the same
/// orders rest in the same order with the same quantities. (So the level
/// totals, the depth and the best bid and ask agree as well.) An order id
/// that was added twice leaves an order that the index does not name; such
/// books are not exported in full.
pub proof fn lemma_export_round_trip(ob: OrderBook, exp: BookExport, end: BookState)
    requires
        ob.wf(),
        no_orphans(ob@),
        ob.exports(exp),
        rebuilt_start().reaches(export_events(exp.instruments@, exp.instruments@.len() as int), end),
    ensures
        end.wf(),
        no_orphans(end),
        forall|k: AbsKey| #[trigger] level_fifo(end, k) == level_fifo(ob@, k),
        forall|o: u64| end.index.contains_key(o) <==> ob@.index.contains_key(o),
{
    let st = ob@;
    ob.lemma_wf_state();
    let evs = export_events(exp.instruments@, exp.instruments@.len() as int);
    lemma_export_adds(exp.instruments@, exp.instruments@.len() as int);
    lemma_export_distinct(ob, exp);
    lemma_replay(evs, end);
    assert forall|k: AbsKey| #[trigger] level_fifo(end, k) == level_fifo(st, k) by {
        lemma_export_is_faithful(ob, exp, k);
    }
    assert forall|o: u64| end.index.contains_key(o) <==> st.index.contains_key(o) by {
        if end.index.contains_key(o) {
            let j = choose|j: int| 0 <= j < evs.len() && (#[trigger] evs[j])->Add_order_id == o;
            let k = (evs[j]->Add_instr, evs[j]->Add_side, evs[j]->Add_px);
            lemma_entry_position(evs, j);
            lemma_export_is_faithful(ob, exp, k);
            lemma_entry_place(st, k, entries_at(evs.take(j), k).len() as int);
        }
        if st.index.contains_key(o) {
            let loc = st.index[o];
            let sh = st.books[loc.0];
            crate::shape::lemma_order_place(sh, loc.1);
            let n = sh.nodes[loc.1];
            let k = (loc.0, n.side, n.price);
            let c = sh.fifo[(n.side, n.price)];
            let a = c.index_of(loc.1);
            lemma_owner(st.index, o);
            assert(level_fifo(st, k)[a] == entry_of(st, loc.0, c[a]));
            lemma_export_is_faithful(ob, exp, k);
            lemma_entry_source(evs, k, a);
        }
    }
}

/// The exported form of the entries `f` of the level at `price` of `side`.
pub open spec fn entry_orders(f: Seq<Entry>, side: Side, price: i64) -> Seq<OrderExport> {
    f.map_values(|e: Entry| OrderExport { order_id: e.0, price, qty: e.1, side })
}

/// The exported orders of a chain whose orders the index names are the
/// entries of those orders.
pub proof fn lemma_chain_orders(st: BookState, instr: u32, side: Side, price: i64, c: Seq<usize>)
    requires
        forall|j: int| 0 <= j < c.len() ==> owner(st.index, (instr, #[trigger] c[j])) is Some,
    ensures
        chain_orders(st.shape_of(instr), st.index, instr, side, price, c) == entry_orders(
            c.map_values(|h: usize| entry_of(st, instr, h)),
            side,
            price,
        ),
    decreases c.len(),
{
    let sh = st.shape_of(instr);
    let orders = chain_orders(sh, st.index, instr, side, price, c);
    let f = c.map_values(|h: usize| entry_of(st, instr, h));
    if c.len() == 0 {
        assert(orders =~= entry_orders(f, side, price));
    } else {
        let d = c.drop_last();
        assert forall|j: int| 0 <= j < d.len() implies owner(st.index, (instr, #[trigger] d[j])) is Some by {
            assert(d[j] == c[j]);
        }
        lemma_chain_orders(st, instr, side, price, d);
        assert(owner(st.index, (instr, c[c.len() - 1])) is Some);
        let fd = d.map_values(|h: usize| entry_of(st, instr, h));
        assert(f =~= fd.push(entry_of(st, instr, c.last())));
        assert(orders =~= entry_orders(f, side, price));
    }
}

/// A sound book has a level exactly where orders rest.
pub proof fn lemma_level_present(st: BookState, k: AbsKey)
    requires
        st.wf(),
        st.books.contains_key(k.0),
    ensures
        st.books[k.0].levels(k.1).contains_key(k.2) <==> level_fifo(st, k).len() > 0,
{
    let sh = st.books[k.0];
    let lk = (k.1, k.2);
    assert(sh.fifo.contains_key(lk) <==> sh.levels(lk.0).contains_key(lk.1));
    if sh.fifo.contains_key(lk) {
        assert(chain_ok(sh.nodes, lk, sh.fifo[lk], sh.levels(lk.0)[lk.1]));
    }
}

/// Books in which the same orders rest at every level export the levels
/// at `prices` alike, whatever handles their node stores gave out.
pub proof fn lemma_side_orders_same(a: BookState, b: BookState, instr: u32, side: Side, prices: Seq<i64>)
    requires
        a.wf(),
        b.wf(),
        no_orphans(a),
        no_orphans(b),
        a.books.contains_key(instr),
        b.books.contains_key(instr),
        forall|k: AbsKey| #[trigger] level_fifo(a, k) == level_fifo(b, k),
    ensures
        side_orders(a.shape_of(instr), a.index, instr, side, prices) == side_orders(
            b.shape_of(instr),
            b.index,
            instr,
            side,
            prices,
        ),
    decreases prices.len(),
{
    if prices.len() > 0 {
        let p = prices.last();
        lemma_side_orders_same(a, b, instr, side, prices.drop_last());
        let ca = a.shape_of(instr).chain_of((side, p));
        let cb = b.shape_of(instr).chain_of((side, p));
        assert forall|j: int| 0 <= j < ca.len() implies owner(a.index, (instr, #[trigger] ca[j])) is Some by {
            lemma_member_key(a.shape_of(instr), (side, p), j);
            assert(a.books[instr].nodes.contains_key(ca[j]));
        }
        assert forall|j: int| 0 <= j < cb.len() implies owner(b.index, (instr, #[trigger] cb[j])) is Some by {
            lemma_member_key(b.shape_of(instr), (side, p), j);
            assert(b.books[instr].nodes.contains_key(cb[j]));
        }
        lemma_chain_orders(a, instr, side, p, ca);
        lemma_chain_orders(b, instr, side, p, cb);
        assert(level_fifo(a, (instr, side, p)) == level_fifo(b, (instr, side, p)));
    }
}

/// Books in which the same orders rest at every level have the same levels
/// on each side, best first.
pub proof fn lemma_same_price_order(a: BookState, b: BookState, instr: u32, side: Side)
    requires
        a.wf(),
        b.wf(),
        a.books.contains_key(instr),
        b.books.contains_key(instr),
        forall|k: AbsKey| #[trigger] level_fifo(a, k) == level_fifo(b, k),
        listable(a.books[instr]),
    ensures
        price_order(a.books[instr].levels(side), side == Side::Bid) == price_order(
            b.books[instr].levels(side),
            side == Side::Bid,
        ),
{
    let ma = a.books[instr].levels(side);
    let mb = b.books[instr].levels(side);
    assert forall|p: i64| ma.contains_key(p) <==> mb.contains_key(p) by {
        lemma_level_present(a, (instr, side, p));
        lemma_level_present(b, (instr, side, p));
        assert(level_fifo(a, (instr, side, p)) == level_fifo(b, (instr, side, p)));
    }
    assert(ma.dom() =~= mb.dom());
    lemma_price_order_unique(mb, side == Side::Bid, price_order(ma, side == Side::Bid));
}

/// What is exported of an instrument depends only on the orders that rest at
/// its levels: books in which the same orders rest at every level, in the
/// same order and with the same quantities, export the same orders in the
/// same order.
pub proof fn lemma_same_levels_same_orders(a: BookState, b: BookState, instr: u32)
    requires
        a.wf(),
        b.wf(),
        no_orphans(a),
        no_orphans(b),
        a.books.contains_key(instr),
        b.books.contains_key(instr),
        forall|k: AbsKey| #[trigger] level_fifo(a, k) == level_fifo(b, k),
        listable(a.books[instr]),
    ensures
        book_orders(a.books[instr], a.index, instr) == book_orders(b.books[instr], b.index, instr),
{
    lemma_same_price_order(a, b, instr, Side::Bid);
    lemma_same_price_order(a, b, instr, Side::Ask);
    lemma_side_orders_same(a, b, instr, Side::Bid, price_order(a.books[instr].bids, true));
    lemma_side_orders_same(a, b, instr, Side::Ask, price_order(a.books[instr].asks, false));
}

/// Exporting rebuilt books gives the export back.
///
/// Let `exp` be an export of sound books in which the index names every
/// order, let the books `rebuilt` hold what replaying the export from
/// nothing leads to, and let `again` be an export of them. Then an
/// instrument that both exports list has the same orders in both, in the
/// same order: bids from the best price to the worst, then asks from the
/// best price to the worst, each level oldest order first. And the rebuilt
/// books hold as many orders as the exported ones, under the same ids.
pub proof fn lemma_export_again(
    ob: OrderBook,
    exp: BookExport,
    end: BookState,
    rebuilt: OrderBook,
    again: BookExport,
    i: int,
    j: int,
)
    requires
        ob.wf(),
        no_orphans(ob@),
        ob.exports(exp),
        rebuilt_start().reaches(export_events(exp.instruments@, exp.instruments@.len() as int), end),
        rebuilt.wf(),
        rebuilt@.books == end.books,
        rebuilt@.index == end.index,
        rebuilt.exports(again),
        0 <= i < exp.instruments@.len(),
        0 <= j < again.instruments@.len(),
        exp.instruments@[i].instr == again.instruments@[j].instr,
    ensures
        again.instruments@[j].orders@ == exp.instruments@[i].orders@,
        rebuilt@.index.dom() == ob@.index.dom(),
{
    let instr = exp.instruments@[i].instr;
    let a = ob@;
    let b = rebuilt@;
    ob.lemma_wf_state();
    rebuilt.lemma_wf_state();
    lemma_export_round_trip(ob, exp, end);
    assert forall|k: AbsKey| #[trigger] level_fifo(a, k) == level_fifo(b, k) by {
        assert(level_fifo(end, k) == level_fifo(a, k));
        assert(b.shape_of(k.0) == end.shape_of(k.0));
        assert(level_fifo(b, k) =~= level_fifo(end, k));
    }
    assert(no_orphans(b));
    assert(b.index.dom() =~= a.index.dom());
    assert(listable(a.books[exp.instruments@[i].instr]));
    assert(a.books.contains_key(exp.instruments@[i].instr));
    assert(b.books.contains_key(again.instruments@[j].instr));
    lemma_same_levels_same_orders(a, b, instr);
}

} // verus!
