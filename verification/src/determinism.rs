//! The books are a function of the events.
//!
//! Which handle the node store gives to an order is not fixed by anything
//! the books promise. What the outside can see of the books does not depend
//! on it: at every price level the resting orders with their ids and
//! quantities, the order ids that are live with their instruments, and which
//! instruments have a book. Two runs over the same events agree on all of
//! that, on whether each event is accepted, and on every published frame.
use vstd::prelude::*;
use crate::export::owner;
use crate::orderbook::{lemma_event_keeps_wf, lemma_left_keeps_wf, BookState};
use crate::parser::{Event, Side};
use crate::roundtrip::{lemma_owner, lemma_owner_is_indexed, AbsKey};
use crate::shape::{chain_ok, lemma_member_key, lemma_order_place, lemma_unlink, linked, sum_qty, Shape};

verus! {

/// A resting order as the outside sees it: the order id that names it, if
/// any does, and its quantity.
pub type Seen = (Option<u64>, i64);

/// The order under handle `h` of instrument `i` as the outside sees it.
pub open spec fn seen_of(st: BookState, i: u32, h: usize) -> Seen {
    (owner(st.index, (i, h)), st.shape_of(i).nodes[h].qty)
}

/// The orders resting at level `k`, oldest first; none if there is no such level.
pub open spec fn level_view(st: BookState, k: AbsKey) -> Seq<Seen> {
    st.shape_of(k.0).chain_of((k.1, k.2)).map_values(|h: usize| seen_of(st, k.0, h))
}

/// The level with the orders of `oid` no longer named by it.
pub open spec fn disowned(s: Seq<Seen>, oid: u64) -> Seq<Seen> {
    s.map_values(
        |e: Seen|
            if e.0 == Some(oid) {
                (None::<u64>, e.1)
            } else {
                e
            },
    )
}

/// The level with the quantity of the order `oid` set to `q`.
pub open spec fn resized(s: Seq<Seen>, oid: u64, q: i64) -> Seq<Seen> {
    s.map_values(
        |e: Seen|
            if e.0 == Some(oid) {
                (e.0, q)
            } else {
                e
            },
    )
}

/// The level without the order `oid`.
pub open spec fn without(s: Seq<Seen>, oid: u64) -> Seq<Seen>
    decreases s.len(),
{
    if s.len() == 0 {
        Seq::empty()
    } else if s.last().0 == Some(oid) {
        without(s.drop_last(), oid)
    } else {
        without(s.drop_last(), oid).push(s.last())
    }
}

/// The sum of the quantities of a level.
pub open spec fn total(s: Seq<Seen>) -> int
    decreases s.len(),
{
    if s.len() == 0 {
        0
    } else {
        total(s.drop_last()) + s.last().1
    }
}

/// Whether the order `oid` rests at the level.
pub open spec fn rests(s: Seq<Seen>, oid: u64) -> bool {
    exists|j: int| 0 <= j < s.len() && (#[trigger] s[j]).0 == Some(oid)
}

/// The quantity of the order `oid` at the level.
pub open spec fn qty_at(s: Seq<Seen>, oid: u64) -> i64 {
    s[choose|j: int| 0 <= j < s.len() && (#[trigger] s[j]).0 == Some(oid)].1
}

/// Two states show the same books: the same orders at every level, the same
/// live order ids with the same instruments, books for the same instruments,
/// and the same settings.
pub open spec fn same_books(a: BookState, b: BookState) -> bool {
    &&& forall|k: AbsKey| #![trigger level_view(a, k)] level_view(a, k) == level_view(b, k)
    &&& forall|o: u64| #[trigger] a.index.contains_key(o) == b.index.contains_key(o)
    &&& forall|o: u64| #[trigger] a.index.contains_key(o) ==> a.index[o].0 == b.index[o].0
    &&& forall|i: u32| #[trigger] a.books.contains_key(i) == b.books.contains_key(i)
    &&& a.consume_trades == b.consume_trades
    &&& a.last_instr == b.last_instr
}

/// The level of the order under `h` in the book of instrument `i`.
pub open spec fn key_at(st: BookState, i: u32, h: usize) -> AbsKey {
    (i, st.books[i].nodes[h].side, st.books[i].nodes[h].price)
}

/// The total of a level is the sum that its chain records.
pub proof fn lemma_total(st: BookState, i: u32, c: Seq<usize>)
    ensures
        total(c.map_values(|h: usize| seen_of(st, i, h))) == sum_qty(st.shape_of(i).nodes, c),
    decreases c.len(),
{
    let f = |h: usize| seen_of(st, i, h);
    if c.len() > 0 {
        lemma_total(st, i, c.drop_last());
        assert(c.map_values(f).drop_last() =~= c.drop_last().map_values(f));
    }
}

/// The count and the total of a level of a sound state are the length and
/// the total of what the outside sees of it.
pub proof fn lemma_level_figures(st: BookState, k: AbsKey)
    requires
        st.wf(),
    ensures
        st.shape_of(k.0).level_of((k.1, k.2)).count == level_view(st, k).len(),
        st.shape_of(k.0).level_of((k.1, k.2)).total_qty == total(level_view(st, k)),
{
    let sh = st.shape_of(k.0);
    let lk = (k.1, k.2);
    lemma_total(st, k.0, sh.chain_of(lk));
    if st.books.contains_key(k.0) {
        assert(sh.fifo.contains_key(lk) <==> sh.levels(lk.0).contains_key(lk.1));
        if sh.fifo.contains_key(lk) {
            assert(chain_ok(sh.nodes, lk, sh.fifo[lk], sh.levels(lk.0)[lk.1]));
        }
    }
}

/// Where a live order is seen: at its place in the chain of its level, named
/// by its order id, and nowhere else.
pub proof fn lemma_seen_once(st: BookState, oid: u64)
    requires
        st.wf(),
        st.index.contains_key(oid),
    ensures
        ({
            let loc = st.index[oid];
            let k = key_at(st, loc.0, loc.1);
            let c = st.books[loc.0].fifo[(k.1, k.2)];
            let j = c.index_of(loc.1);
            &&& st.books.contains_key(loc.0)
            &&& st.books[loc.0].nodes.contains_key(loc.1)
            &&& st.books[loc.0].fifo.contains_key((k.1, k.2))
            &&& level_view(st, k).len() == c.len()
            &&& 0 <= j < c.len()
            &&& c[j] == loc.1
            &&& level_view(st, k)[j] == (Some(oid), st.books[loc.0].nodes[loc.1].qty)
            &&& forall|k2: AbsKey, j2: int|
                0 <= j2 < level_view(st, k2).len() && (#[trigger] level_view(st, k2)[j2]).0 == Some(oid) ==> k2
                    == k && j2 == j
        }),
{
    let loc = st.index[oid];
    let sh = st.books[loc.0];
    lemma_order_place(sh, loc.1);
    lemma_owner(st.index, oid);
    let k = key_at(st, loc.0, loc.1);
    let c = sh.fifo[(k.1, k.2)];
    let j = c.index_of(loc.1);
    assert forall|k2: AbsKey, j2: int|
        0 <= j2 < level_view(st, k2).len() && (#[trigger] level_view(st, k2)[j2]).0 == Some(oid) implies k2 == k
        && j2 == j by {
        let sh2 = st.shape_of(k2.0);
        let c2 = sh2.chain_of((k2.1, k2.2));
        lemma_owner_is_indexed(st.index, (k2.0, c2[j2]));
        assert(st.books.contains_key(k2.0));
        lemma_member_key(sh2, (k2.1, k2.2), j2);
        assert(c[j2] == c[j]);
    }
}

/// What adding an order shows: the order joins the end of its level, named
/// by its id; an older order that the id named is not named any more.
pub proof fn lemma_add_shows(st: BookState, ev: Event, h: usize)
    requires
        st.wf(),
        ev is Add,
        st.accepts(ev),
        !st.shape_of(ev->Add_instr).nodes.contains_key(h),
    ensures
        st.after_event(ev, h).wf(),
        forall|k: AbsKey| #[trigger]
            level_view(st.after_event(ev, h), k) == if k == (ev->Add_instr, ev->Add_side, ev->Add_px) {
                disowned(level_view(st, k), ev->Add_order_id).push((Some(ev->Add_order_id), ev->Add_qty))
            } else {
                disowned(level_view(st, k), ev->Add_order_id)
            },
{
    let st2 = st.after_event(ev, h);
    let oid = ev->Add_order_id;
    let instr = ev->Add_instr;
    let k0 = (ev->Add_side, ev->Add_px);
    let sh = st.shape_of(instr);
    lemma_event_keeps_wf(st, ev, h);
    assert(st2.index.contains_key(oid));
    lemma_owner(st2.index, oid);
    assert forall|i: u32, x: usize| st.books.contains_key(i) && st.books[i].nodes.contains_key(x) implies owner(
        st2.index,
        (i, x),
    ) == (if owner(st.index, (i, x)) == Some(oid) {
        None::<u64>
    } else {
        owner(st.index, (i, x))
    }) by {
        let loc = (i, x);
        if owner(st.index, loc) is Some {
            let o = owner(st.index, loc).unwrap();
            lemma_owner_is_indexed(st.index, loc);
            if o != oid {
                assert(st2.index.contains_key(o) && st2.index[o] == loc);
                lemma_owner(st2.index, o);
            }
        }
        if owner(st2.index, loc) is Some {
            let w = owner(st2.index, loc).unwrap();
            lemma_owner_is_indexed(st2.index, loc);
            assert(w != oid);
            assert(st.index.contains_key(w) && st.index[w] == loc);
            lemma_owner(st.index, w);
        }
    }
    if sh.level_of((k0.0, k0.1)).tail is Some {
        assert(sh.levels(k0.0).contains_key(k0.1));
        assert(sh.fifo.contains_key(k0) <==> sh.levels(k0.0).contains_key(k0.1));
        assert(chain_ok(sh.nodes, k0, sh.fifo[k0], sh.levels(k0.0)[k0.1]));
        assert(linked(sh.nodes, k0, sh.fifo[k0], sh.fifo[k0].len() - 1));
    }
    assert forall|k: AbsKey| #[trigger]
        level_view(st2, k) == if k == (instr, k0.0, k0.1) {
            disowned(level_view(st, k), oid).push((Some(oid), ev->Add_qty))
        } else {
            disowned(level_view(st, k), oid)
        } by {
        let c = st.shape_of(k.0).chain_of((k.1, k.2));
        let c2 = st2.shape_of(k.0).chain_of((k.1, k.2));
        let d = disowned(level_view(st, k), oid);
        assert forall|j: int| 0 <= j < c.len() implies seen_of(st2, k.0, c[j]) == d[j] by {
            assert(st.books.contains_key(k.0));
            lemma_member_key(st.books[k.0], (k.1, k.2), j);
            assert(st.books[k.0].nodes.contains_key(c[j]));
        }
        if k == (instr, k0.0, k0.1) {
            assert(c2 == c.push(h));
            assert(seen_of(st2, instr, h) == (Some(oid), ev->Add_qty));
            assert(level_view(st2, k) =~= d.push((Some(oid), ev->Add_qty)));
        } else {
            assert(c2 == c);
            assert(level_view(st2, k) =~= d);
        }
    }
}

/// Taking out the one place where an order id is seen is taking out the order.
pub proof fn lemma_without_at(s: Seq<Seen>, oid: u64, j: int)
    requires
        0 <= j < s.len(),
        s[j].0 == Some(oid),
        forall|x: int| 0 <= x < s.len() && (#[trigger] s[x]).0 == Some(oid) ==> x == j,
    ensures
        without(s, oid) == s.remove(j),
    decreases s.len(),
{
    let d = s.drop_last();
    if j == s.len() - 1 {
        assert(s.remove(j) =~= d);
        lemma_without_none(d, oid);
    } else {
        assert forall|x: int| 0 <= x < d.len() && (#[trigger] d[x]).0 == Some(oid) implies x == j by {
            assert(d[x] == s[x]);
        }
        lemma_without_at(d, oid, j);
        assert(s[s.len() - 1].0 != Some(oid));
        assert(s.remove(j) =~= d.remove(j).push(s.last()));
    }
}

/// A level where an order id is not seen stays as it is without the order.
pub proof fn lemma_without_none(s: Seq<Seen>, oid: u64)
    requires
        forall|x: int| 0 <= x < s.len() ==> (#[trigger] s[x]).0 != Some(oid),
    ensures
        without(s, oid) == s,
        resized(s, oid, 0) == s,
    decreases s.len(),
{
    assert(resized(s, oid, 0) =~= s);
    if s.len() > 0 {
        let d = s.drop_last();
        assert forall|x: int| 0 <= x < d.len() implies (#[trigger] d[x]).0 != Some(oid) by {
            assert(d[x] == s[x]);
        }
        lemma_without_none(d, oid);
        assert(s[s.len() - 1].0 != Some(oid));
        assert(d.push(s.last()) =~= s);
    } else {
        assert(without(s, oid) =~= s);
    }
}

/// What leaving a live order with a quantity shows: a positive quantity
/// replaces the order's quantity; with any other the order is gone.
pub proof fn lemma_left_shows(st: BookState, oid: u64, qty: int)
    requires
        st.wf(),
        st.index.contains_key(oid),
        if qty > 0 {
            qty <= i64::MAX && st.books[st.index[oid].0].can_set_qty(st.index[oid].1, qty as i64)
        } else {
            st.books[st.index[oid].0].can_cancel(st.index[oid].1)
        },
    ensures
        st.with_left(oid, qty).wf(),
        forall|k: AbsKey| #[trigger]
            level_view(st.with_left(oid, qty), k) == if qty > 0 {
                resized(level_view(st, k), oid, qty as i64)
            } else {
                without(level_view(st, k), oid)
            },
{
    let st2 = st.with_left(oid, qty);
    let loc = st.index[oid];
    let sh = st.books[loc.0];
    let n = sh.nodes[loc.1];
    let k0 = key_at(st, loc.0, loc.1);
    let c0 = sh.fifo[(k0.1, k0.2)];
    let j0 = c0.index_of(loc.1);
    lemma_left_keeps_wf(st, oid, qty);
    lemma_seen_once(st, oid);
    lemma_order_place(sh, loc.1);
    if qty > 0 {
        assert forall|k: AbsKey| #[trigger] level_view(st2, k) == resized(level_view(st, k), oid, qty as i64) by {
            let c = st.shape_of(k.0).chain_of((k.1, k.2));
            assert(st2.shape_of(k.0).chain_of((k.1, k.2)) == c);
            assert forall|j: int| 0 <= j < c.len() implies seen_of(st2, k.0, c[j]) == resized(
                level_view(st, k),
                oid,
                qty as i64,
            )[j] by {
                assert(st.books.contains_key(k.0));
                lemma_member_key(st.books[k.0], (k.1, k.2), j);
                if level_view(st, k)[j].0 == Some(oid) {
                    assert(k == k0 && j == j0);
                } else if k.0 == loc.0 && c[j] == loc.1 {
                    assert(k == k0);
                    assert(c0[j] == c0[j0]);
                }
            }
            assert(level_view(st2, k) =~= resized(level_view(st, k), oid, qty as i64));
        }
    } else {
        let sh2 = st2.books[loc.0];
        lemma_unlink(sh.nodes, (k0.1, k0.2), c0, sh.levels(k0.1)[k0.2], j0);
        assert forall|i: u32, x: usize|
            st2.books.contains_key(i) && st2.books[i].nodes.contains_key(x) implies owner(st2.index, (i, x))
            == owner(st.index, (i, x)) && st2.books[i].nodes[x].qty == st.books[i].nodes[x].qty by {
            let l = (i, x);
            assert(l != loc);
            if owner(st.index, l) is Some {
                let o = owner(st.index, l).unwrap();
                lemma_owner_is_indexed(st.index, l);
                assert(o != oid);
                assert(st2.index.contains_key(o) && st2.index[o] == l);
                lemma_owner(st2.index, o);
            }
            if owner(st2.index, l) is Some {
                let w = owner(st2.index, l).unwrap();
                lemma_owner_is_indexed(st2.index, l);
                assert(st.index.contains_key(w) && st.index[w] == l);
                lemma_owner(st.index, w);
            }
        }
        assert forall|k: AbsKey| #[trigger] level_view(st2, k) == without(level_view(st, k), oid) by {
            let c = st.shape_of(k.0).chain_of((k.1, k.2));
            let c2 = st2.shape_of(k.0).chain_of((k.1, k.2));
            let v = level_view(st, k);
            if k == k0 {
                assert(c2 == c.remove(j0));
                lemma_without_at(v, oid, j0);
                assert forall|j: int| 0 <= j < c2.len() implies seen_of(st2, k.0, c2[j]) == v.remove(j0)[j] by {
                    let b = if j < j0 {
                        j
                    } else {
                        j + 1
                    };
                    lemma_member_key(sh, (k.1, k.2), b);
                    assert(c[b] != c[j0]);
                    assert(st2.books[k.0].nodes.contains_key(c[b]));
                }
                assert(level_view(st2, k) =~= v.remove(j0));
            } else {
                assert(c2 == c);
                assert forall|x: int| 0 <= x < v.len() implies (#[trigger] v[x]).0 != Some(oid) by {}
                lemma_without_none(v, oid);
                assert forall|j: int| 0 <= j < c.len() implies seen_of(st2, k.0, c[j]) == v[j] by {
                    assert(st.books.contains_key(k.0));
                    lemma_member_key(st.books[k.0], (k.1, k.2), j);
                    if k.0 == loc.0 && c[j] == loc.1 {
                        assert(k == k0);
                    }
                    assert(st2.books[k.0].nodes.contains_key(c[j]));
                }
                assert(level_view(st2, k) =~= v);
            }
        }
    }
}

/// In states that show the same books a live order rests at the same level
/// with the same quantity.
pub proof fn lemma_same_place(a: BookState, b: BookState, oid: u64)
    requires
        a.wf(),
        b.wf(),
        same_books(a, b),
        a.index.contains_key(oid),
    ensures
        b.index.contains_key(oid),
        key_at(a, a.index[oid].0, a.index[oid].1) == key_at(b, b.index[oid].0, b.index[oid].1),
        a.books[a.index[oid].0].nodes[a.index[oid].1].qty == b.books[b.index[oid].0].nodes[b.index[oid].1].qty,
        a.books[a.index[oid].0].nodes.contains_key(a.index[oid].1),
        b.books[b.index[oid].0].nodes.contains_key(b.index[oid].1),
        a.books.contains_key(a.index[oid].0),
        b.books.contains_key(b.index[oid].0),
{
    assert(a.index.contains_key(oid) == b.index.contains_key(oid));
    lemma_seen_once(a, oid);
    lemma_seen_once(b, oid);
    let la = a.index[oid];
    let ka = key_at(a, la.0, la.1);
    let ja = a.books[la.0].fifo[(ka.1, ka.2)].index_of(la.1);
    assert(level_view(a, ka) == level_view(b, ka));
    assert(level_view(b, ka)[ja].0 == Some(oid));
}

/// Whether a live order can be left with a quantity is the same in states
/// that show the same books.
pub proof fn lemma_left_accepted_same(a: BookState, b: BookState, oid: u64, qty: int)
    requires
        a.wf(),
        b.wf(),
        same_books(a, b),
        a.index.contains_key(oid),
    ensures
        (if qty > 0 {
            qty <= i64::MAX && a.books[a.index[oid].0].can_set_qty(a.index[oid].1, qty as i64)
        } else {
            a.books[a.index[oid].0].can_cancel(a.index[oid].1)
        }) == (if qty > 0 {
            qty <= i64::MAX && b.books[b.index[oid].0].can_set_qty(b.index[oid].1, qty as i64)
        } else {
            b.books[b.index[oid].0].can_cancel(b.index[oid].1)
        }),
{
    lemma_same_place(a, b, oid);
    let ka = key_at(a, a.index[oid].0, a.index[oid].1);
    lemma_level_figures(a, ka);
    lemma_level_figures(b, ka);
    assert(level_view(a, ka) == level_view(b, ka));
}

/// Whether an event is accepted is the same in states that show the same books.
pub proof fn lemma_accepts_same(a: BookState, b: BookState, ev: Event)
    requires
        a.wf(),
        b.wf(),
        same_books(a, b),
    ensures
        a.accepts(ev) == b.accepts(ev),
{
    match ev {
        Event::Add { order_id, instr, px, qty, side } => {
            let k = (instr, side, px);
            lemma_level_figures(a, k);
            lemma_level_figures(b, k);
            assert(level_view(a, k) == level_view(b, k));
        },
        Event::Mod { order_id, qty } => {
            assert(a.index.contains_key(order_id) == b.index.contains_key(order_id));
            if a.index.contains_key(order_id) {
                lemma_left_accepted_same(a, b, order_id, qty as int);
            }
        },
        Event::Del { order_id } => {
            assert(a.index.contains_key(order_id) == b.index.contains_key(order_id));
            if a.index.contains_key(order_id) {
                lemma_left_accepted_same(a, b, order_id, 0);
            }
        },
        Event::Trade { instr, px, qty, maker_order_id, taker_side } => {
            if maker_order_id is Some {
                let oid = maker_order_id.unwrap();
                assert(a.index.contains_key(oid) == b.index.contains_key(oid));
                if a.trade_hits(maker_order_id) {
                    lemma_same_place(a, b, oid);
                    lemma_left_accepted_same(a, b, oid, a.left_after_trade(oid, qty));
                }
            }
        },
        Event::Heartbeat => {},
    }
}

/// Leaving a live order with a quantity leads states that show the same
/// books to states that show the same books.
pub proof fn lemma_left_same(a: BookState, b: BookState, oid: u64, qty: int)
    requires
        a.wf(),
        b.wf(),
        same_books(a, b),
        a.index.contains_key(oid),
        if qty > 0 {
            qty <= i64::MAX && a.books[a.index[oid].0].can_set_qty(a.index[oid].1, qty as i64)
        } else {
            a.books[a.index[oid].0].can_cancel(a.index[oid].1)
        },
    ensures
        a.with_left(oid, qty).wf(),
        b.with_left(oid, qty).wf(),
        same_books(a.with_left(oid, qty), b.with_left(oid, qty)),
{
    lemma_left_accepted_same(a, b, oid, qty);
    lemma_same_place(a, b, oid);
    lemma_left_shows(a, oid, qty);
    lemma_left_shows(b, oid, qty);
    let a2 = a.with_left(oid, qty);
    let b2 = b.with_left(oid, qty);
    assert forall|k: AbsKey| #![trigger level_view(a2, k)] level_view(a2, k) == level_view(b2, k) by {
        assert(level_view(a, k) == level_view(b, k));
    }
    assert forall|o: u64| #[trigger] a2.index.contains_key(o) == b2.index.contains_key(o) by {
        assert(a.index.contains_key(o) == b.index.contains_key(o));
    }
    assert forall|o: u64| #[trigger] a2.index.contains_key(o) implies a2.index[o].0 == b2.index[o].0 by {
        assert(a.index.contains_key(o));
    }
    assert forall|i: u32| #[trigger] a2.books.contains_key(i) == b2.books.contains_key(i) by {
        assert(a.books.contains_key(i) == b.books.contains_key(i));
    }
}

/// What is seen of the books does not depend on the instrument last touched.
pub proof fn lemma_same_but_last(a: BookState, b: BookState, last: Option<u32>)
    requires
        same_books(a, b),
    ensures
        same_books(BookState { last_instr: last, ..a }, BookState { last_instr: last, ..b }),
{
    let a2 = BookState { last_instr: last, ..a };
    let b2 = BookState { last_instr: last, ..b };
    assert forall|k: AbsKey| #![trigger level_view(a2, k)] level_view(a2, k) == level_view(b2, k) by {
        assert(level_view(a, k) == level_view(b, k));
        assert(level_view(a2, k) =~= level_view(a, k));
        assert(level_view(b2, k) =~= level_view(b, k));
    }
    assert forall|o: u64| #[trigger] a2.index.contains_key(o) == b2.index.contains_key(o) by {
        assert(a.index.contains_key(o) == b.index.contains_key(o));
    }
    assert forall|o: u64| #[trigger] a2.index.contains_key(o) implies a2.index[o].0 == b2.index[o].0 by {
        assert(a.index.contains_key(o));
    }
    assert forall|i: u32| #[trigger] a2.books.contains_key(i) == b2.books.contains_key(i) by {
        assert(a.books.contains_key(i) == b.books.contains_key(i));
    }
}

/// One event leads states that show the same books to states that show the
/// same books, whatever handles the node stores hand out.
pub proof fn lemma_step_same(a: BookState, b: BookState, ev: Event, a2: BookState, b2: BookState)
    requires
        a.wf(),
        b.wf(),
        same_books(a, b),
        a.accepts(ev),
        a.leads_to(ev, a2),
        b.leads_to(ev, b2),
    ensures
        b.accepts(ev),
        a2.wf(),
        b2.wf(),
        same_books(a2, b2),
{
    lemma_accepts_same(a, b, ev);
    match ev {
        Event::Add { order_id, instr, px, qty, side } => {
            let ha = a2.handle_of(ev);
            let hb = b2.handle_of(ev);
            lemma_add_shows(a, ev, ha);
            lemma_add_shows(b, ev, hb);
            assert(a2 == a.after_event(ev, ha));
            assert(b2 == b.after_event(ev, hb));
            assert forall|k: AbsKey| #![trigger level_view(a2, k)] level_view(a2, k) == level_view(b2, k) by {
                assert(level_view(a, k) == level_view(b, k));
                assert(level_view(a.after_event(ev, ha), k) == level_view(b.after_event(ev, hb), k));
            }
            assert forall|o: u64| #[trigger] a2.index.contains_key(o) == b2.index.contains_key(o) by {
                assert(a.index.contains_key(o) == b.index.contains_key(o));
            }
            assert forall|o: u64| #[trigger] a2.index.contains_key(o) implies a2.index[o].0 == b2.index[o].0 by {
                if o != order_id {
                    assert(a.index.contains_key(o));
                }
            }
            assert forall|i: u32| #[trigger] a2.books.contains_key(i) == b2.books.contains_key(i) by {
                assert(a.books.contains_key(i) == b.books.contains_key(i));
            }
        },
        Event::Mod { order_id, qty } => {
            assert(a.index.contains_key(order_id) == b.index.contains_key(order_id));
            if a.index.contains_key(order_id) {
                lemma_left_same(a, b, order_id, qty as int);
                assert(a.index[order_id].0 == b.index[order_id].0);
                lemma_same_but_last(
                    a.with_left(order_id, qty as int),
                    b.with_left(order_id, qty as int),
                    Some(a.index[order_id].0),
                );
            }
        },
        Event::Del { order_id } => {
            assert(a.index.contains_key(order_id) == b.index.contains_key(order_id));
            if a.index.contains_key(order_id) {
                lemma_left_same(a, b, order_id, 0);
                assert(a.index[order_id].0 == b.index[order_id].0);
                lemma_same_but_last(a.with_left(order_id, 0), b.with_left(order_id, 0), Some(a.index[order_id].0));
            }
        },
        Event::Trade { instr, px, qty, maker_order_id, taker_side } => {
            if maker_order_id is Some {
                let oid = maker_order_id.unwrap();
                assert(a.index.contains_key(oid) == b.index.contains_key(oid));
            }
            if a.trade_hits(maker_order_id) {
                let oid = maker_order_id.unwrap();
                lemma_same_place(a, b, oid);
                let left = a.left_after_trade(oid, qty);
                assert(left == b.left_after_trade(oid, qty));
                lemma_left_same(a, b, oid, left);
                lemma_same_but_last(a.with_left(oid, left), b.with_left(oid, left), Some(instr));
            } else {
                lemma_same_but_last(a, b, Some(instr));
            }
        },
        Event::Heartbeat => {},
    }
}

/// The books are a function of the events: two runs over the same events,
/// from states that show the same books, end in states that show the same books.
pub proof fn lemma_runs_same(a: BookState, b: BookState, evs: Seq<Event>, a2: BookState, b2: BookState)
    requires
        a.wf(),
        b.wf(),
        same_books(a, b),
        a.reaches(evs, a2),
        b.reaches(evs, b2),
    ensures
        a2.wf(),
        b2.wf(),
        same_books(a2, b2),
    decreases evs.len(),
{
    if evs.len() > 0 {
        let ev = evs.last();
        let ma = choose|m: BookState| a.reaches(evs.drop_last(), m) && m.accepts(ev) && #[trigger] m.leads_to(ev, a2);
        let mb = choose|m: BookState| b.reaches(evs.drop_last(), m) && m.accepts(ev) && #[trigger] m.leads_to(ev, b2);
        lemma_runs_same(a, b, evs.drop_last(), ma, mb);
        lemma_step_same(ma, mb, ev, a2, b2);
    }
}

/// A run passes through a state that accepts the next event after every prefix of its events.
pub proof fn lemma_reaches_prefix(st: BookState, evs: Seq<Event>, end: BookState, n: int)
    requires
        st.reaches(evs, end),
        0 <= n < evs.len(),
    ensures
        exists|mid: BookState| #[trigger] st.reaches(evs.take(n), mid) && mid.accepts(evs[n]),
    decreases evs.len(),
{
    let ev = evs.last();
    let m = choose|m: BookState| st.reaches(evs.drop_last(), m) && m.accepts(ev) && #[trigger] m.leads_to(ev, end);
    if n == evs.len() - 1 {
        assert(evs.take(n) =~= evs.drop_last());
        assert(st.reaches(evs.take(n), m) && m.accepts(evs[n]));
    } else {
        lemma_reaches_prefix(st, evs.drop_last(), m, n);
        assert(evs.drop_last().take(n) =~= evs.take(n));
        let mid = choose|mid: BookState| #[trigger] st.reaches(evs.drop_last().take(n), mid) && mid.accepts(evs.drop_last()[n]);
        assert(st.reaches(evs.take(n), mid) && mid.accepts(evs[n]));
    }
}

/// A run that comes to a state that rejects the next event cannot be run to
/// the end by any choice of handles.
pub proof fn lemma_rejected_for_all(st: BookState, evs: Seq<Event>, n: int, mid: BookState)
    requires
        st.wf(),
        0 <= n < evs.len(),
        st.reaches(evs.take(n), mid),
        !mid.accepts(evs[n]),
    ensures
        forall|end: BookState| !st.reaches(evs, end),
{
    assert forall|end: BookState| !st.reaches(evs, end) by {
        if st.reaches(evs, end) {
            lemma_reaches_prefix(st, evs, end, n);
            let m2 = choose|m2: BookState| #[trigger] st.reaches(evs.take(n), m2) && m2.accepts(evs[n]);
            lemma_same_refl(st);
            lemma_runs_same(st, st, evs.take(n), mid, m2);
            lemma_accepts_same(mid, m2, evs[n]);
        }
    }
}

/// Every state shows the same books as itself.
pub proof fn lemma_same_refl(st: BookState)
    ensures
        same_books(st, st),
{
}

} // verus!
