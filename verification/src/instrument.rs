//! The order-by-order book of one instrument.
//!
//! Orders rest in a node store (a `slab::Slab`) under stable handles that are
//! reused after an order leaves. Each side keeps its price levels in a
//! `SideBook`; the best price of each side and the quantity resting there are
//! cached and kept equal to what a scan of the side would find.
use vstd::prelude::*;
use crate::level::{lookup, Level};
use crate::parser::Side;
use crate::shape::{
    chain_ok, lemma_added_wf, lemma_order_place, lemma_removed_wf, lemma_with_qty_wf, linked, next_in, sum_qty,
    unlink, LevelKey, Node, Shape,
};
use crate::side::{is_best, SideBook};

verus! {

/// A handle of an order in the node store.
pub type Handle = usize;

/// Tick of the price grid of a book.
pub const GRID_TICK: i64 = 1;

/// Number of slots of the price grid of a book.
pub const GRID_SPAN: usize = 16384;

#[verifier::external_type_specification]
#[verifier::external_body]
#[verifier::reject_recursive_types(T)]
pub struct ExSlab<T>(slab::Slab<T>);

/// The orders that a node store holds, by handle.
pub uninterp spec fn slab_nodes(s: slab::Slab<Node>) -> Map<usize, Node>;

/// `Slab::with_capacity`: a store without orders.
#[verifier::external_body]
fn slab_with_capacity(capacity: usize) -> (s: slab::Slab<Node>)
    ensures
        slab_nodes(s) =~= Map::empty(),
{
    slab::Slab::with_capacity(capacity)
}

/// `Slab::insert`: stores `n` under a handle that was not in use and returns the handle.
#[verifier::external_body]
fn slab_insert(s: &mut slab::Slab<Node>, n: Node) -> (h: usize)
    ensures
        !slab_nodes(*old(s)).contains_key(h),
        slab_nodes(*final(s)) == slab_nodes(*old(s)).insert(h, n),
{
    s.insert(n)
}

/// `Slab::get`: the order stored under `h`, if any.
#[verifier::external_body]
fn slab_get(s: &slab::Slab<Node>, h: usize) -> (r: Option<Node>)
    ensures
        r == lookup(slab_nodes(*s), h),
{
    s.get(h).copied()
}

/// `Slab` indexed mutably: the order stored under `h`, to be changed in
/// place; what the caller leaves there is what the store holds afterwards.
/// The outside function panics on a handle that is not in use, which the
/// precondition excludes.
#[verifier::external_body]
fn slab_at(s: &mut slab::Slab<Node>, h: usize) -> (n: &mut Node)
    requires
        slab_nodes(*old(s)).contains_key(h),
    ensures
        *n == slab_nodes(*old(s))[h],
        slab_nodes(*final(s)) == slab_nodes(*old(s)).insert(h, *final(n)),
{
    &mut s[h]
}

/// `Slab::try_remove`: removes the order stored under `h` and returns it, if there was one.
#[verifier::external_body]
fn slab_remove(s: &mut slab::Slab<Node>, h: usize) -> (r: Option<Node>)
    ensures
        r == lookup(slab_nodes(*old(s)), h),
        slab_nodes(*final(s)) == slab_nodes(*old(s)).remove(h),
{
    s.try_remove(h)
}

/// A list of price levels, each a price with the quantity resting there,
/// kept in a `smallvec::SmallVec` with room for 32 levels in place.
#[verifier::external_body]
pub struct Depth32 {
    inner: smallvec::SmallVec<[(i64, i64); 32]>,
}

/// The levels that a depth list holds, in order.
pub uninterp spec fn depth_items(d: Depth32) -> Seq<(i64, i64)>;

/// `SmallVec::new`: an empty list.
#[verifier::external_body]
fn depth_new() -> (d: Depth32)
    ensures
        depth_items(d) =~= Seq::empty(),
{
    Depth32 { inner: smallvec::SmallVec::new() }
}

/// `SmallVec::push`: appends `e`.
#[verifier::external_body]
fn depth_push(d: &mut Depth32, e: (i64, i64))
    ensures
        depth_items(*final(d)) == depth_items(*old(d)).push(e),
{
    d.inner.push(e)
}

/// `SmallVec::len`: the number of levels held.
#[verifier::external_body]
fn depth_len(d: &Depth32) -> (n: usize)
    ensures
        n == depth_items(*d).len(),
{
    d.inner.len()
}

/// The level at position `i` (`SmallVec` dereferences to a slice; the
/// precondition keeps the index within it).
#[verifier::external_body]
fn depth_at(d: &Depth32, i: usize) -> (e: (i64, i64))
    requires
        i < depth_items(*d).len(),
    ensures
        e == depth_items(*d)[i as int],
{
    d.inner[i]
}

impl View for Depth32 {
    type V = Seq<(i64, i64)>;

    open spec fn view(&self) -> Seq<(i64, i64)> {
        depth_items(*self)
    }
}

impl Depth32 {
    /// The number of levels in the list.
    pub fn len(&self) -> (n: usize)
        ensures
            n == self@.len(),
    {
        depth_len(self)
    }

    /// The level at position `i`, if the list is that long.
    pub fn get(&self, i: usize) -> (r: Option<(i64, i64)>)
        ensures
            r == if i < self@.len() {
                Some(self@[i as int])
            } else {
                None
            },
    {
        if i < depth_len(self) {
            Some(depth_at(self, i))
        } else {
            None
        }
    }
}

/// The best level of a side as reported: `best` is the side's best price and
/// `qty` the quantity resting there; on an empty side there is no best price
/// and the quantity is zero.
pub open spec fn is_bbo(levels: Map<i64, Level>, descending: bool, best: Option<i64>, qty: i64) -> bool {
    match best {
        Some(b) => is_best(levels, descending, b) && qty == levels[b].total_qty,
        None => qty == 0 && forall|p: i64| !levels.contains_key(p),
    }
}

/// `r` reports the best level of `levels`: its price and the quantity resting
/// there, or nothing if there is no level.
pub open spec fn is_bbo_pair(levels: Map<i64, Level>, descending: bool, r: Option<(i64, i64)>) -> bool {
    match r {
        Some(e) => is_best(levels, descending, e.0) && e.1 == levels[e.0].total_qty,
        None => forall|p: i64| !levels.contains_key(p),
    }
}

/// The first `n` of the levels at `prices`, or all of them if there are
/// fewer, each a price with the quantity resting there.
pub open spec fn depth_of(levels: Map<i64, Level>, prices: Seq<i64>, n: int) -> Seq<(i64, i64)> {
    Seq::new(
        (if prices.len() < n {
            prices.len() as int
        } else {
            n
        }) as nat,
        |j: int| (prices[j], levels[prices[j]].total_qty),
    )
}

/// A walk along the FIFO chain of a level.
pub struct LevelIter<'a> {
    pub orders: &'a slab::Slab<Node>,
    pub cur: Option<usize>,
}

impl<'a> LevelIter<'a> {
    /// The handle the walk stands at, if that order is stored; the walk
    /// moves on to the order's successor. A handle that is not stored ends the walk.
    pub fn next(&mut self) -> (r: Option<Handle>)
        ensures
            final(self).orders == old(self).orders,
            match old(self).cur {
                Some(h) => if slab_nodes(*old(self).orders).contains_key(h) {
                    r == Some(h) && final(self).cur == slab_nodes(*old(self).orders)[h].next
                } else {
                    r is None && final(self).cur is None
                },
                None => r is None && final(self).cur is None,
            },
    {
        match self.cur {
            Some(h) => {
                match slab_get(self.orders, h) {
                    Some(n) => {
                        self.cur = n.next;
                        Some(h)
                    },
                    None => {
                        self.cur = None;
                        None
                    },
                }
            },
            None => None,
        }
    }
}

impl Level {
    /// A walk along the chain of the level through the node store `orders`,
    /// oldest order first.
    pub fn iter_fifo<'a>(&self, orders: &'a slab::Slab<Node>) -> (it: LevelIter<'a>)
        ensures
            it.orders == orders,
            it.cur == self.head,
    {
        LevelIter { orders, cur: self.head }
    }
}

/// The book of one instrument.
pub struct InstrumentBook {
    pub bids: SideBook,
    pub asks: SideBook,
    pub orders: slab::Slab<Node>,
    pub best_bid: Option<i64>,
    pub best_ask: Option<i64>,
    pub best_bid_qty: i64,
    pub best_ask_qty: i64,
    /// The handles of each level's orders, oldest first.
    pub fifo: Ghost<Map<LevelKey, Seq<usize>>>,
}

impl View for InstrumentBook {
    type V = Shape;

    open spec fn view(&self) -> Shape {
        Shape { nodes: slab_nodes(self.orders), fifo: self.fifo@, bids: self.bids@, asks: self.asks@ }
    }
}

impl InstrumentBook {
    /// Both sides and the linked structure are sound, and the cached best
    /// prices and quantities are those of the sides.
    pub open spec fn wf(self) -> bool {
        &&& self.bids.wf()
        &&& self.asks.wf()
        &&& self@.wf()
        &&& is_bbo(self.bids@, true, self.best_bid, self.best_bid_qty)
        &&& is_bbo(self.asks@, false, self.best_ask, self.best_ask_qty)
    }

    /// The levels of `side`.
    pub open spec fn side(self, side: Side) -> SideBook {
        match side {
            Side::Bid => self.bids,
            Side::Ask => self.asks,
        }
    }

    /// See `Shape::can_add`.
    pub open spec fn can_add(self, price: i64, qty: i64, side: Side) -> bool {
        self@.can_add(price, qty, side)
    }

    /// See `Shape::can_set_qty`.
    pub open spec fn can_set_qty(self, h: usize, qty: i64) -> bool {
        self@.can_set_qty(h, qty)
    }

    /// See `Shape::can_cancel`.
    pub open spec fn can_cancel(self, h: usize) -> bool {
        self@.can_cancel(h)
    }

    /// The book is sound and holds no order, and no price has centred its grids.
    pub open spec fn is_fresh(self) -> bool {
        self.wf() && self@ == Shape::empty() && self.bids.is_unset(GRID_TICK, GRID_SPAN) && self.asks.is_unset(
            GRID_TICK,
            GRID_SPAN,
        )
    }

    /// In a sound book every level counts the orders of its chain and sums
    /// their quantities, and no level is empty.
    pub proof fn lemma_level_totals(self, side: Side, price: i64)
        requires
            self.wf(),
            self@.levels(side).contains_key(price),
        ensures
            self@.fifo.contains_key((side, price)),
            self@.levels(side)[price].count == self@.fifo[(side, price)].len(),
            self@.levels(side)[price].total_qty == sum_qty(self@.nodes, self@.fifo[(side, price)]),
            self@.levels(side)[price].count > 0,
    {
        let k = (side, price);
        assert(self@.fifo.contains_key(k) <==> self@.levels(k.0).contains_key(k.1));
        assert(chain_ok(self@.nodes, k, self@.fifo[k], self@.levels(k.0)[k.1]));
    }

    /// No level of a sound book is empty.
    pub proof fn lemma_sides_nonempty(self)
        requires
            self.bids.wf(),
            self.asks.wf(),
            self@.wf(),
        ensures
            self.bids.all_nonempty(),
            self.asks.all_nonempty(),
    {
        assert forall|p: i64| #[trigger] self.bids@.contains_key(p) implies self.bids@[p].count != 0 by {
            let k = (Side::Bid, p);
            assert(self@.fifo.contains_key(k) <==> self@.levels(k.0).contains_key(k.1));
            assert(chain_ok(self@.nodes, k, self@.fifo[k], self@.levels(k.0)[k.1]));
        }
        assert forall|p: i64| #[trigger] self.asks@.contains_key(p) implies self.asks@[p].count != 0 by {
            let k = (Side::Ask, p);
            assert(self@.fifo.contains_key(k) <==> self@.levels(k.0).contains_key(k.1));
            assert(chain_ok(self@.nodes, k, self@.fifo[k], self@.levels(k.0)[k.1]));
        }
    }

    /// An empty book with room for `order_slab_capacity` orders and, on each side, the default grid.
    pub fn with_capacity(order_slab_capacity: usize) -> (b: Self)
        ensures
            b.is_fresh(),
    {
        InstrumentBook {
            bids: SideBook::new(GRID_TICK, GRID_SPAN),
            asks: SideBook::new(GRID_TICK, GRID_SPAN),
            orders: slab_with_capacity(order_slab_capacity),
            best_bid: None,
            best_ask: None,
            best_bid_qty: 0,
            best_ask_qty: 0,
            fifo: Ghost(Map::empty()),
        }
    }

    /// An empty book.
    pub fn new() -> (b: Self)
        ensures
            b.is_fresh(),
    {
        InstrumentBook::with_capacity(1048576)
    }

    /// Both sides can be walked: the walk orders that depth lists follow exist.
    pub open spec fn walkable(self) -> bool {
        self.bids.is_level_order(true, self.bids.level_order(true)) && self.asks.is_level_order(
            false,
            self.asks.level_order(false),
        )
    }

    /// Where the grid of `side` lies.
    pub open spec fn frame(self, side: Side) -> crate::grid::GridFrame {
        self.side(side).grid.frame()
    }

    /// Where the grid of the other side lies.
    pub open spec fn far_frame(self, side: Side) -> crate::grid::GridFrame {
        match side {
            Side::Bid => self.asks.grid.frame(),
            Side::Ask => self.bids.grid.frame(),
        }
    }

    /// The order stored under `h`, if any.
    pub fn order(&self, h: Handle) -> (r: Option<Node>)
        ensures
            r == lookup(self@.nodes, h),
    {
        slab_get(&self.orders, h)
    }

    /// The level of `side` at `price`, if there is one. A level counts the
    /// orders of its chain and sums their quantities.
    pub fn get_level(&self, side: Side, price: i64) -> (r: Option<Level>)
        requires
            self.wf(),
        ensures
            r == lookup(self@.levels(side), price),
            r is Some <==> self@.fifo.contains_key((side, price)),
            r matches Some(l) ==> {
                &&& l.count == self@.fifo[(side, price)].len()
                &&& l.count > 0
                &&& l.total_qty == sum_qty(self@.nodes, self@.fifo[(side, price)])
                &&& l.head == Some(self@.fifo[(side, price)].first())
                &&& l.tail == Some(self@.fifo[(side, price)].last())
            },
    {
        let r = match side {
            Side::Bid => self.bids.get(price),
            Side::Ask => self.asks.get(price),
        };
        proof {
            let k = (side, price);
            assert(self@.fifo.contains_key(k) <==> self@.levels(k.0).contains_key(k.1));
            if r is Some {
                assert(chain_ok(self@.nodes, k, self@.fifo[k], self@.levels(k.0)[k.1]));
            }
        }
        r
    }

    /// Whether an order of `qty` at `price` can join `side`.
    pub fn check_add(&self, price: i64, qty: i64, side: Side) -> (ok: bool)
        requires
            self.wf(),
        ensures
            ok == self.can_add(price, qty, side),
    {
        let lvl = match self.get_level(side, price) {
            Some(l) => l,
            None => Level::empty(),
        };
        let t: i128 = lvl.total_qty as i128 + qty as i128;
        lvl.count < usize::MAX && t >= i64::MIN as i128 && t <= i64::MAX as i128
    }

    /// Whether the quantity of order `h` can become `qty`.
    pub fn check_set_qty(&self, h: Handle, qty: i64) -> (ok: bool)
        requires
            self.wf(),
        ensures
            ok == self.can_set_qty(h, qty),
    {
        match slab_get(&self.orders, h) {
            Some(n) => {
                proof {
                    lemma_order_place(self@, h);
                }
                match self.get_level(n.side, n.price) {
                    Some(l) => {
                        let t: i128 = l.total_qty as i128 + qty as i128 - n.qty as i128;
                        t >= i64::MIN as i128 && t <= i64::MAX as i128
                    },
                    None => false,
                }
            },
            None => false,
        }
    }

    /// Whether order `h` can leave.
    pub fn check_cancel(&self, h: Handle) -> (ok: bool)
        requires
            self.wf(),
        ensures
            ok == self.can_cancel(h),
    {
        match slab_get(&self.orders, h) {
            Some(n) => {
                proof {
                    lemma_order_place(self@, h);
                }
                match self.get_level(n.side, n.price) {
                    Some(l) => {
                        let t: i128 = l.total_qty as i128 - n.qty as i128;
                        t >= i64::MIN as i128 && t <= i64::MAX as i128
                    },
                    None => false,
                }
            },
            None => false,
        }
    }

    /// Adds an order at the end of the FIFO of its price level, creating the
    /// level if there is none, and returns the order's handle. The first
    /// price of a side centres the grid of that side.
    pub fn add(&mut self, price: i64, qty: i64, side: Side) -> (h: Handle)
        requires
            old(self).wf(),
            old(self).can_add(price, qty, side),
        ensures
            final(self).wf(),
            !old(self)@.nodes.contains_key(h),
            final(self)@ == old(self)@.added(h, price, qty, side),
            final(self).frame(side) == old(self).frame(side).after_put(price),
            final(self).far_frame(side) == old(self).far_frame(side),
    {
        let ghost sh0 = self@;
        let ghost k = (side, price);
        let lvl = match self.get_level(side, price) {
            Some(l) => l,
            None => Level::empty(),
        };
        let prev_tail = lvl.tail;
        let h = slab_insert(&mut self.orders, Node { price, qty, side, prev: prev_tail, next: None });
        match prev_tail {
            Some(t) => {
                proof {
                    assert(chain_ok(sh0.nodes, k, sh0.fifo[k], sh0.levels(k.0)[k.1]));
                    assert(linked(sh0.nodes, k, sh0.fifo[k], sh0.fifo[k].len() - 1));
                }
                let tail = slab_at(&mut self.orders, t);
                tail.next = Some(h);
            },
            None => {},
        }
        let new_level = Level {
            head: if prev_tail.is_none() {
                Some(h)
            } else {
                lvl.head
            },
            tail: Some(h),
            total_qty: lvl.total_qty + qty,
            count: lvl.count + 1,
        };
        match side {
            Side::Bid => {
                self.bids.put(price, new_level);
                let better = match self.best_bid {
                    Some(b) => price >= b,
                    None => true,
                };
                if better {
                    self.best_bid = Some(price);
                    self.best_bid_qty = new_level.total_qty;
                }
            },
            Side::Ask => {
                self.asks.put(price, new_level);
                let better = match self.best_ask {
                    Some(a) => price <= a,
                    None => true,
                };
                if better {
                    self.best_ask = Some(price);
                    self.best_ask_qty = new_level.total_qty;
                }
            },
        }
        proof {
            self.fifo@ = sh0.fifo.insert(k, sh0.chain_of(k).push(h));
            let sh1 = sh0.added(h, price, qty, side);
            assert(self@.nodes =~= sh1.nodes);
            assert(self@.bids =~= sh1.bids);
            assert(self@.asks =~= sh1.asks);
            assert(self@ == sh1);
            lemma_added_wf(sh0, h, price, qty, side);
        }
        h
    }

    /// Sets the quantity of order `h` and adjusts the total of its level.
    pub fn set_qty(&mut self, h: Handle, new_qty: i64)
        requires
            old(self).wf(),
            old(self).can_set_qty(h, new_qty),
        ensures
            final(self).wf(),
            final(self)@ == old(self)@.with_qty(h, new_qty),
            final(self).bids.grid.frame() == old(self).bids.grid.frame(),
            final(self).asks.grid.frame() == old(self).asks.grid.frame(),
    {
        let ghost sh0 = self@;
        proof {
            lemma_order_place(sh0, h);
            lemma_with_qty_wf(sh0, h, new_qty);
        }
        let n = match slab_get(&self.orders, h) {
            Some(n) => n,
            None => {
                return ;
            },
        };
        let lvl = match self.get_level(n.side, n.price) {
            Some(l) => l,
            None => {
                return ;
            },
        };
        let node = slab_at(&mut self.orders, h);
        node.qty = new_qty;
        let total: i64 = (lvl.total_qty as i128 + new_qty as i128 - n.qty as i128) as i64;
        let new_level = Level { head: lvl.head, tail: lvl.tail, total_qty: total, count: lvl.count };
        match n.side {
            Side::Bid => {
                self.bids.put(n.price, new_level);
                if self.best_bid == Some(n.price) {
                    self.best_bid_qty = total;
                }
            },
            Side::Ask => {
                self.asks.put(n.price, new_level);
                if self.best_ask == Some(n.price) {
                    self.best_ask_qty = total;
                }
            },
        }
        proof {
            let sh1 = sh0.with_qty(h, new_qty);
            assert(self@.nodes =~= sh1.nodes);
            assert(self@.bids =~= sh1.bids);
            assert(self@.asks =~= sh1.asks);
            assert(self@ == sh1);
        }
    }

    /// Recomputes the cached best level of `side` from the side itself.
    fn recompute_best_after_removal(&mut self, side: Side)
        requires
            old(self).bids.wf(),
            old(self).asks.wf(),
            old(self).bids.all_nonempty(),
            old(self).asks.all_nonempty(),
        ensures
            final(self).bids == old(self).bids,
            final(self).asks == old(self).asks,
            final(self).orders == old(self).orders,
            final(self).fifo == old(self).fifo,
            match side {
                Side::Bid => {
                    &&& is_bbo(final(self).bids@, true, final(self).best_bid, final(self).best_bid_qty)
                    &&& final(self).best_ask == old(self).best_ask
                    &&& final(self).best_ask_qty == old(self).best_ask_qty
                },
                Side::Ask => {
                    &&& is_bbo(final(self).asks@, false, final(self).best_ask, final(self).best_ask_qty)
                    &&& final(self).best_bid == old(self).best_bid
                    &&& final(self).best_bid_qty == old(self).best_bid_qty
                },
            },
    {
        match side {
            Side::Bid => {
                match self.bids.best(true) {
                    Some(e) => {
                        self.best_bid = Some(e.0);
                        self.best_bid_qty = e.1;
                    },
                    None => {
                        self.best_bid = None;
                        self.best_bid_qty = 0;
                    },
                }
            },
            Side::Ask => {
                match self.asks.best(false) {
                    Some(e) => {
                        self.best_ask = Some(e.0);
                        self.best_ask_qty = e.1;
                    },
                    None => {
                        self.best_ask = None;
                        self.best_ask_qty = 0;
                    },
                }
            },
        }
    }

    /// Removes order `h`: unlinks it from its level's FIFO, drops the level
    /// if it was the last order there, and frees the handle.
    pub fn cancel(&mut self, h: Handle)
        requires
            old(self).wf(),
            old(self).can_cancel(h),
        ensures
            final(self).wf(),
            final(self)@ == old(self)@.removed(h),
            final(self).bids.grid.frame() == old(self).bids.grid.frame(),
            final(self).asks.grid.frame() == old(self).asks.grid.frame(),
    {
        let ghost sh0 = self@;
        let ghost sh1 = sh0.removed(h);
        proof {
            lemma_order_place(sh0, h);
            lemma_removed_wf(sh0, h);
        }
        let n = match slab_get(&self.orders, h) {
            Some(n) => n,
            None => {
                return ;
            },
        };
        let ghost k = (n.side, n.price);
        let ghost c = sh0.fifo[k];
        let ghost i0 = c.index_of(h);
        proof {
            if i0 > 0 {
                assert(linked(sh0.nodes, k, c, i0 - 1));
            }
            if i0 + 1 < c.len() {
                assert(linked(sh0.nodes, k, c, i0 + 1));
            }
        }
        match n.prev {
            Some(p) => {
                let before = slab_at(&mut self.orders, p);
                before.next = n.next;
            },
            None => {},
        }
        match n.next {
            Some(x) => {
                let after = slab_at(&mut self.orders, x);
                after.prev = n.prev;
            },
            None => {},
        }
        let _ = slab_remove(&mut self.orders, h);
        assert(slab_nodes(self.orders) =~= unlink(sh0.nodes, h));
        let lvl = match match n.side {
            Side::Bid => self.bids.get(n.price),
            Side::Ask => self.asks.get(n.price),
        } {
            Some(l) => l,
            None => {
                return ;
            },
        };
        let is_best = match n.side {
            Side::Bid => self.best_bid == Some(n.price),
            Side::Ask => self.best_ask == Some(n.price),
        };
        let new_level = Level {
            head: if n.prev.is_none() {
                n.next
            } else {
                lvl.head
            },
            tail: if n.next.is_none() {
                n.prev
            } else {
                lvl.tail
            },
            total_qty: lvl.total_qty - n.qty,
            count: lvl.count - 1,
        };
        match n.side {
            Side::Bid => {
                self.bids.put(n.price, new_level);
                let _ = self.bids.remove_if_empty(n.price);
            },
            Side::Ask => {
                self.asks.put(n.price, new_level);
                let _ = self.asks.remove_if_empty(n.price);
            },
        }
        proof {
            self.fifo@ = sh1.fifo;
            assert(self@.bids =~= sh1.bids);
            assert(self@.asks =~= sh1.asks);
            assert(self@ == sh1);
            self.lemma_sides_nonempty();
        }
        if new_level.count == 0 {
            if is_best {
                self.recompute_best_after_removal(n.side);
            }
        } else if is_best {
            match n.side {
                Side::Bid => {
                    self.best_bid_qty = new_level.total_qty;
                },
                Side::Ask => {
                    self.best_ask_qty = new_level.total_qty;
                },
            }
        }
    }

    /// The best bid and the best ask, each with the quantity resting at that price.
    pub fn bbo(&self) -> (r: (Option<(i64, i64)>, Option<(i64, i64)>))
        requires
            self.wf(),
        ensures
            match r.0 {
                Some(e) => is_best(self@.bids, true, e.0) && e.1 == self@.bids[e.0].total_qty && e.1
                    == sum_qty(self@.nodes, self@.fifo[(Side::Bid, e.0)]),
                None => forall|p: i64| !self@.bids.contains_key(p),
            },
            match r.1 {
                Some(e) => is_best(self@.asks, false, e.0) && e.1 == self@.asks[e.0].total_qty && e.1
                    == sum_qty(self@.nodes, self@.fifo[(Side::Ask, e.0)]),
                None => forall|p: i64| !self@.asks.contains_key(p),
            },
    {
        let bid = match self.best_bid {
            Some(p) => {
                proof {
                    self.lemma_level_totals(Side::Bid, p);
                }
                Some((p, self.best_bid_qty))
            },
            None => None,
        };
        let ask = match self.best_ask {
            Some(p) => {
                proof {
                    self.lemma_level_totals(Side::Ask, p);
                }
                Some((p, self.best_ask_qty))
            },
            None => None,
        };
        (bid, ask)
    }

    /// The first `n` levels of `side` in walk order, each a price with the
    /// quantity resting there.
    fn side_depth(&self, side: Side, n: usize) -> (d: Depth32)
        requires
            self.wf(),
        ensures
            d@ == depth_of(self@.levels(side), self.side(side).level_order(side == Side::Bid), n as int),
            self.side(side).is_level_order(side == Side::Bid, self.side(side).level_order(side == Side::Bid)),
    {
        let sb = match side {
            Side::Bid => &self.bids,
            Side::Ask => &self.asks,
        };
        let prices = sb.prices(side == Side::Bid);
        proof {
            self.lemma_sides_nonempty();
            sb.lemma_level_order(side == Side::Bid, prices@);
        }
        let mut d = depth_new();
        let mut i: usize = 0;
        while i < prices.len() && i < n
            invariant
                self.wf(),
                *sb == self.side(side),
                i <= prices@.len(),
                i <= n,
                forall|p: i64| #[trigger] prices@.contains(p) <==> sb@.contains_key(p),
                d@ == depth_of(sb@, prices@, i as int),
            decreases prices@.len() - i,
        {
            let p = prices[i];
            proof {
                assert(prices@.contains(prices@[i as int]));
            }
            let q = match sb.get(p) {
                Some(l) => l.total_qty,
                None => 0,
            };
            depth_push(&mut d, (p, q));
            i += 1;
            assert(d@ =~= depth_of(sb@, prices@, i as int));
        }
        assert(d@ =~= depth_of(sb@, prices@, n as int));
        d
    }

    /// The first `n` bid levels and the first `n` ask levels, best first.
    /// Each side is walked through its grid and then through its overflow store.
    pub fn top_n(&self, n: usize) -> (r: (Depth32, Depth32))
        requires
            self.wf(),
        ensures
            r.0@ == depth_of(self@.bids, self.bids.level_order(true), n as int),
            r.1@ == depth_of(self@.asks, self.asks.level_order(false), n as int),
            self.walkable(),
    {
        let bids = self.side_depth(Side::Bid, n);
        let asks = self.side_depth(Side::Ask, n);
        (bids, asks)
    }

    /// The handles of the orders of `side` at `price`, oldest first.
    pub fn fifo_handles(&self, side: Side, price: i64) -> (r: Vec<Handle>)
        requires
            self.wf(),
        ensures
            r@ == self@.chain_of((side, price)),
    {
        let mut out: Vec<Handle> = Vec::new();
        let ghost k = (side, price);
        let lvl = match self.get_level(side, price) {
            Some(l) => l,
            None => {
                return out;
            },
        };
        let ghost c = self@.fifo[k];
        proof {
            assert(chain_ok(self@.nodes, k, c, self@.levels(k.0)[k.1]));
        }
        let mut cur = lvl.head;
        while cur.is_some()
            invariant
                self.wf(),
                self@.fifo.contains_key(k),
                self@.levels(k.0).contains_key(k.1),
                c == self@.fifo[k],
                chain_ok(self@.nodes, k, c, self@.levels(k.0)[k.1]),
                out@.len() <= c.len(),
                out@ == c.take(out@.len() as int),
                cur == if out@.len() < c.len() {
                    Some(c[out@.len() as int])
                } else {
                    None
                },
            decreases c.len() - out@.len(),
        {
            let h = cur.unwrap();
            let ghost i = out@.len() as int;
            proof {
                assert(linked(self@.nodes, k, c, i));
            }
            cur = match slab_get(&self.orders, h) {
                Some(n) => n.next,
                None => None,
            };
            out.push(h);
            proof {
                assert(out@ =~= c.take(i + 1));
                assert(cur == next_in(c, i));
            }
        }
        assert(out@ =~= c);
        out
    }
}

} // verus!
