//! The books of all instruments and the index from order ids to orders.
use vstd::prelude::*;
use crate::grid::GridFrame;
use crate::instrument::{Depth32, Handle, InstrumentBook};
use crate::level::lookup;
use crate::parser::{Event, Side};
use crate::shape::Shape;
use crate::side::{is_price_order, price_order};
use crate::export::{
    add_events, book_orders, chain_orders, export_events, last_instrument, listable, owner, side_orders, BookExport,
    InstrumentExport, OrderExport, EXPORT_VERSION,
};
use crate::table::{
    book_table, books_entry, books_get, books_keys, books_new, handle_owners, index_get, index_insert,
    index_len, index_new, index_pairs, index_remove, order_index, owners_get, owners_insert,
    owners_with_capacity, Table,
};

verus! {

/// Initial room of the node store of a book.
pub const DEFAULT_SLAB_CAPACITY: usize = 1048576;

/// The books and the order index as a mathematical value.
pub struct BookState {
    /// The linked structure of each instrument's book.
    pub books: Map<u32, Shape>,
    /// Where each live order rests: instrument and handle.
    pub index: Map<u64, (u32, usize)>,
    /// The instrument of the last event that named or reached one.
    pub last_instr: Option<u32>,
    pub consume_trades: bool,
}

impl BookState {
    /// The shape of the book of `instr`, empty if there is no such book.
    pub open spec fn shape_of(self, instr: u32) -> Shape {
        if self.books.contains_key(instr) {
            self.books[instr]
        } else {
            Shape::empty()
        }
    }

    /// Every indexed order rests in the book the index names.
    pub open spec fn index_valid(self) -> bool {
        forall|o: u64| #[trigger]
            self.index.contains_key(o) ==> self.books.contains_key(self.index[o].0)
                && self.books[self.index[o].0].nodes.contains_key(self.index[o].1)
    }

    /// No two order ids name the same order.
    pub open spec fn index_injective(self) -> bool {
        forall|o1: u64, o2: u64|
            #![trigger self.index.contains_key(o1), self.index.contains_key(o2)]
            self.index.contains_key(o1) && self.index.contains_key(o2) && o1 != o2 ==> self.index[o1]
                != self.index[o2]
    }

    /// Every book is sound and the index is finite, valid and injective.
    pub open spec fn wf(self) -> bool {
        &&& forall|i: u32| #[trigger] self.books.contains_key(i) ==> self.books[i].wf()
        &&& self.index.dom().finite()
        &&& self.index_valid()
        &&& self.index_injective()
    }

    /// What is left of order `oid` after a trade of `qty` against it.
    pub open spec fn left_after_trade(self, oid: u64, qty: i64) -> int {
        self.books[self.index[oid].0].nodes[self.index[oid].1].qty - qty
    }

    /// Whether a trade reduces a resting order: trades are consumed, the
    /// trade names its maker, and the maker is a live order.
    pub open spec fn trade_hits(self, maker_order_id: Option<u64>) -> bool {
        self.consume_trades && maker_order_id is Some && self.index.contains_key(maker_order_id.unwrap())
    }

    /// The event can be applied within machine range: no level total and no
    /// order count overflows.
    pub open spec fn accepts(self, ev: Event) -> bool {
        match ev {
            Event::Add { instr, px, qty, side, .. } => self.shape_of(instr).can_add(px, qty, side),
            Event::Mod { order_id, qty } => self.index.contains_key(order_id) ==> {
                let loc = self.index[order_id];
                if qty > 0 {
                    self.books[loc.0].can_set_qty(loc.1, qty)
                } else {
                    self.books[loc.0].can_cancel(loc.1)
                }
            },
            Event::Del { order_id } => self.index.contains_key(order_id) ==> self.books[self.index[order_id].0].can_cancel(
                self.index[order_id].1,
            ),
            Event::Trade { qty, maker_order_id, .. } => self.trade_hits(maker_order_id) ==> {
                let oid = maker_order_id.unwrap();
                let loc = self.index[oid];
                let left = self.left_after_trade(oid, qty);
                if left > 0 {
                    left <= i64::MAX && self.books[loc.0].can_set_qty(loc.1, left as i64)
                } else {
                    self.books[loc.0].can_cancel(loc.1)
                }
            },
            Event::Heartbeat => true,
        }
    }

    /// The state after order `order_id` was added under handle `h`.
    pub open spec fn with_added(self, order_id: u64, instr: u32, px: i64, qty: i64, side: Side, h: usize) -> BookState {
        BookState {
            books: self.books.insert(instr, self.shape_of(instr).added(h, px, qty, side)),
            index: self.index.insert(order_id, (instr, h)),
            ..self
        }
    }

    /// The state after the quantity of live order `order_id` became `qty`.
    pub open spec fn with_resized(self, order_id: u64, qty: i64) -> BookState {
        let loc = self.index[order_id];
        BookState { books: self.books.insert(loc.0, self.books[loc.0].with_qty(loc.1, qty)), ..self }
    }

    /// The state after live order `order_id` was removed.
    pub open spec fn with_removed(self, order_id: u64) -> BookState {
        let loc = self.index[order_id];
        BookState {
            books: self.books.insert(loc.0, self.books[loc.0].removed(loc.1)),
            index: self.index.remove(order_id),
            ..self
        }
    }

    /// The state after live order `order_id` was left with `qty`: resized if
    /// `qty` is positive, else removed.
    pub open spec fn with_left(self, order_id: u64, qty: int) -> BookState {
        if qty > 0 {
            self.with_resized(order_id, qty as i64)
        } else {
            self.with_removed(order_id)
        }
    }

    /// The state after `ev`. An added order rests under handle `h`.
    ///
    /// `Add` appends the order to the FIFO of its level and indexes it.
    /// `Mod` of a live order sets its quantity, or removes it if the quantity
    /// is not positive. `Del` removes a live order. `Trade` reduces its maker
    /// by the traded quantity if trades are consumed and the maker is live.
    /// Events that name an unknown order change nothing.
    pub open spec fn after_event(self, ev: Event, h: usize) -> BookState {
        match ev {
            Event::Add { order_id, instr, px, qty, side } => BookState {
                last_instr: Some(instr),
                ..self.with_added(order_id, instr, px, qty, side, h)
            },
            Event::Mod { order_id, qty } => if self.index.contains_key(order_id) {
                BookState { last_instr: Some(self.index[order_id].0), ..self.with_left(order_id, qty as int) }
            } else {
                self
            },
            Event::Del { order_id } => if self.index.contains_key(order_id) {
                BookState { last_instr: Some(self.index[order_id].0), ..self.with_removed(order_id) }
            } else {
                self
            },
            Event::Trade { instr, qty, maker_order_id, .. } => {
                let st = if self.trade_hits(maker_order_id) {
                    self.with_left(maker_order_id.unwrap(), self.left_after_trade(maker_order_id.unwrap(), qty))
                } else {
                    self
                };
                BookState { last_instr: Some(instr), ..st }
            },
            Event::Heartbeat => self,
        }
    }

    /// `end` is a state that the events `evs` can lead to from `self`, each
    /// event being accepted by the state it meets.
    pub open spec fn reaches(self, evs: Seq<Event>, end: BookState) -> bool
        decreases evs.len(),
    {
        if evs.len() == 0 {
            end == self
        } else {
            exists|mid: BookState|
                self.reaches(evs.drop_last(), mid) && mid.accepts(evs.last()) && #[trigger] mid.leads_to(
                    evs.last(),
                    end,
                )
        }
    }

    /// The handle under which `ev` left its order, if `ev` added one.
    pub open spec fn handle_of(self, ev: Event) -> usize {
        match ev {
            Event::Add { order_id, .. } => self.index[order_id].1,
            _ => 0,
        }
    }

    /// `next` is a state that `ev` can lead to from `self`: it is the state
    /// after the event, with an added order resting under a handle that was free.
    pub open spec fn leads_to(self, ev: Event, next: BookState) -> bool {
        &&& next == self.after_event(ev, next.handle_of(ev))
        &&& ev matches Event::Add { instr, .. } ==> !self.shape_of(instr).nodes.contains_key(next.handle_of(ev))
    }
}

/// Soundness is kept by every event that is accepted.
pub proof fn lemma_event_keeps_wf(st: BookState, ev: Event, h: usize)
    requires
        st.wf(),
        st.accepts(ev),
        ev matches Event::Add { instr, .. } ==> !st.shape_of(instr).nodes.contains_key(h),
    ensures
        st.after_event(ev, h).wf(),
{
    let st2 = st.after_event(ev, h);
    match ev {
        Event::Add { order_id, instr, px, qty, side } => {
            let sh = st.shape_of(instr);
            crate::shape::lemma_added_wf(sh, h, px, qty, side);
            assert forall|o: u64| #[trigger] st2.index.contains_key(o) implies st2.books.contains_key(
                st2.index[o].0,
            ) && st2.books[st2.index[o].0].nodes.contains_key(st2.index[o].1) by {
                if o != order_id {
                    assert(st.index.contains_key(o));
                }
            }
            assert forall|o1: u64, o2: u64|
                st2.index.contains_key(o1) && st2.index.contains_key(o2) && o1 != o2 implies st2.index[o1]
                != st2.index[o2] by {
                if o1 != order_id {
                    assert(st.index.contains_key(o1));
                }
                if o2 != order_id {
                    assert(st.index.contains_key(o2));
                }
            }
        },
        Event::Mod { order_id, qty } => {
            if st.index.contains_key(order_id) {
                lemma_left_keeps_wf(st, order_id, qty as int);
            }
        },
        Event::Del { order_id } => {
            if st.index.contains_key(order_id) {
                lemma_left_keeps_wf(st, order_id, 0);
            }
        },
        Event::Trade { instr, qty, maker_order_id, .. } => {
            if st.trade_hits(maker_order_id) {
                lemma_left_keeps_wf(st, maker_order_id.unwrap(), st.left_after_trade(maker_order_id.unwrap(), qty));
            }
        },
        Event::Heartbeat => {},
    }
}

/// Resizing or removing a live order keeps the state sound.
pub proof fn lemma_left_keeps_wf(st: BookState, oid: u64, qty: int)
    requires
        st.wf(),
        st.index.contains_key(oid),
        if qty > 0 {
            qty <= i64::MAX && st.books[st.index[oid].0].can_set_qty(st.index[oid].1, qty as i64)
        } else {
            st.books[st.index[oid].0].can_cancel(st.index[oid].1)
        },
    ensures
        st.with_left(oid, qty).wf(),
{
    let st2 = st.with_left(oid, qty);
    let loc = st.index[oid];
    let sh = st.books[loc.0];
    assert(st.books.contains_key(loc.0));
    if qty > 0 {
        crate::shape::lemma_with_qty_wf(sh, loc.1, qty as i64);
        assert forall|o: u64| #[trigger] st2.index.contains_key(o) implies st2.books.contains_key(
            st2.index[o].0,
        ) && st2.books[st2.index[o].0].nodes.contains_key(st2.index[o].1) by {
            assert(st.index.contains_key(o));
        }
    } else {
        crate::shape::lemma_removed_wf(sh, loc.1);
        crate::shape::lemma_order_place(sh, loc.1);
        let c = sh.fifo[(sh.nodes[loc.1].side, sh.nodes[loc.1].price)];
        crate::shape::lemma_unlink(
            sh.nodes,
            (sh.nodes[loc.1].side, sh.nodes[loc.1].price),
            c,
            sh.levels(sh.nodes[loc.1].side)[sh.nodes[loc.1].price],
            c.index_of(loc.1),
        );
        assert forall|o: u64| #[trigger] st2.index.contains_key(o) implies st2.books.contains_key(
            st2.index[o].0,
        ) && st2.books[st2.index[o].0].nodes.contains_key(st2.index[o].1) by {
            assert(st.index.contains_key(o));
            assert(st.index.contains_key(oid));
            assert(st.index[o] != st.index[oid]);
        }
        assert forall|o1: u64, o2: u64|
            st2.index.contains_key(o1) && st2.index.contains_key(o2) && o1 != o2 implies st2.index[o1]
            != st2.index[o2] by {
            assert(st.index.contains_key(o1));
            assert(st.index.contains_key(o2));
        }
    }
}

/// Where the grids of a new book lie, bids first: nowhere yet.
pub open spec fn fresh_frames() -> (GridFrame, GridFrame) {
    (
        GridFrame::unset(crate::instrument::GRID_TICK, crate::instrument::GRID_SPAN as nat),
        GridFrame::unset(crate::instrument::GRID_TICK, crate::instrument::GRID_SPAN as nat),
    )
}

/// Where the grids of the book of `instr` lie once `ev` was applied, if they
/// lay at `f` before: an add for that instrument centres the grid of its
/// side on its price if nothing has centred that grid yet; nothing else
/// moves a grid.
pub open spec fn frames_after(f: (GridFrame, GridFrame), ev: Event, instr: u32) -> (GridFrame, GridFrame) {
    match ev {
        Event::Add { instr: i, px, side, .. } => if i == instr {
            match side {
                Side::Bid => (f.0.after_put(px), f.1),
                Side::Ask => (f.0, f.1.after_put(px)),
            }
        } else {
            f
        },
        _ => f,
    }
}

/// Where the grids of the book of `instr` lie once the events `evs` were
/// applied in order, if they lay at `f` before.
pub open spec fn frames_after_all(f: (GridFrame, GridFrame), evs: Seq<Event>, instr: u32) -> (GridFrame, GridFrame)
    decreases evs.len(),
{
    if evs.len() == 0 {
        f
    } else {
        frames_after(frames_after_all(f, evs.drop_last(), instr), evs.last(), instr)
    }
}

/// The orders of `exp` can be added one after the other within machine range.
pub open spec fn replayable(exp: BookExport) -> bool {
    exists|end: BookState| #[trigger]
        rebuilt_start().reaches(export_events(exp.instruments@, exp.instruments@.len() as int), end)
}

/// The state that a rebuild starts from: no books, no orders, trades not consumed.
pub open spec fn rebuilt_start() -> BookState {
    BookState { books: Map::empty(), index: Map::empty(), last_instr: None, consume_trades: false }
}

/// The events of the first `n` instruments of an export are a prefix of the
/// events of the whole export.
pub proof fn lemma_export_events_prefix(instruments: Seq<InstrumentExport>, n: int)
    requires
        0 <= n <= instruments.len(),
    ensures
        export_events(instruments, n).len() <= export_events(instruments, instruments.len() as int).len(),
        export_events(instruments, n) == export_events(instruments, instruments.len() as int).take(
            export_events(instruments, n).len() as int,
        ),
    decreases instruments.len() - n,
{
    let all = export_events(instruments, instruments.len() as int);
    if n < instruments.len() {
        lemma_export_events_prefix(instruments, n + 1);
        let a = export_events(instruments, n);
        let b = export_events(instruments, n + 1);
        assert(b == a + add_events(instruments[n].instr, instruments[n].orders@));
        assert(a =~= b.take(a.len() as int));
        assert(b.take(a.len() as int) =~= all.take(b.len() as int).take(a.len() as int));
        assert(all.take(b.len() as int).take(a.len() as int) =~= all.take(a.len() as int));
    } else {
        assert(all.take(all.len() as int) =~= all);
    }
}

/// The books of all instruments with the index of live orders.
pub struct OrderBook {
    _depth_for_reporting: usize,
    books: Table<u32, InstrumentBook>,
    index: Table<u64, (u32, Handle)>,
    last_instr: Option<u32>,
    consume_trades: bool,
    default_slab_capacity: usize,
}

impl View for OrderBook {
    type V = BookState;

    closed spec fn view(&self) -> BookState {
        BookState {
            books: Map::new(
                |i: u32| book_table(self.books).contains_key(i),
                |i: u32| book_table(self.books)[i]@,
            ),
            index: order_index(self.index),
            last_instr: self.last_instr,
            consume_trades: self.consume_trades,
        }
    }
}

impl OrderBook {
    /// Every book is sound, with its cached best levels, and the index is
    /// valid and injective.
    pub closed spec fn wf(self) -> bool {
        &&& forall|i: u32| #[trigger] book_table(self.books).contains_key(i) ==> book_table(self.books)[i].wf()
        &&& self@.index.dom().finite()
        &&& self@.index_valid()
        &&& self@.index_injective()
    }

    /// Where the grids of the book of `instr` lie, bids first; for an
    /// instrument without a book, where the grids of a new book lie. With
    /// the levels of a side this fixes which levels its grid keeps, and so
    /// the order in which depth lists walk them.
    pub closed spec fn frames(self, instr: u32) -> (GridFrame, GridFrame) {
        if book_table(self.books).contains_key(instr) {
            (book_table(self.books)[instr].bids.grid.frame(), book_table(self.books)[instr].asks.grid.frame())
        } else {
            fresh_frames()
        }
    }

    /// The depth that reports show.
    pub closed spec fn depth_for_reporting(self) -> usize {
        self._depth_for_reporting
    }

    /// The initial room of the node store of a new book.
    pub closed spec fn slab_capacity(self) -> usize {
        self.default_slab_capacity
    }

    /// Every level of every sound book counts the orders of its FIFO chain
    /// and sums their quantities.
    pub proof fn lemma_level_is_sum(self, instr: u32, side: Side, price: i64)
        requires
            self.wf(),
            self@.books.contains_key(instr),
            self@.books[instr].levels(side).contains_key(price),
        ensures
            self@.books[instr].fifo.contains_key((side, price)),
            self@.books[instr].levels(side)[price].count == self@.books[instr].fifo[(side, price)].len(),
            self@.books[instr].levels(side)[price].total_qty == crate::shape::sum_qty(
                self@.books[instr].nodes,
                self@.books[instr].fifo[(side, price)],
            ),
    {
        self.lemma_book(instr);
        self.book(instr).lemma_level_totals(side, price);
    }

    /// The cached best bid and ask of every book are those that a scan of
    /// the book finds: the highest bid price and the lowest ask price, each
    /// with the total of its level; nothing and zero on an empty side.
    pub proof fn lemma_cache_is_best(self, instr: u32)
        requires
            self.wf(),
            self@.books.contains_key(instr),
        ensures
            crate::instrument::is_bbo(
                self@.books[instr].bids,
                true,
                self.book(instr).best_bid,
                self.book(instr).best_bid_qty,
            ),
            crate::instrument::is_bbo(
                self@.books[instr].asks,
                false,
                self.book(instr).best_ask,
                self.book(instr).best_ask_qty,
            ),
    {
        self.lemma_book(instr);
    }

    /// A sound book has a sound state.
    pub proof fn lemma_wf_state(self)
        requires
            self.wf(),
        ensures
            self@.wf(),
    {
    }

    /// A book without instruments and without orders.
    pub open spec fn is_empty_book(self, consume_trades: bool) -> bool {
        &&& self.wf()
        &&& self@.books == Map::<u32, Shape>::empty()
        &&& self@.index == Map::<u64, (u32, usize)>::empty()
        &&& self@.last_instr is None
        &&& self@.consume_trades == consume_trades
    }

    /// An empty book that does not consume trades.
    pub fn new(depth_for_reporting: usize) -> (b: Self)
        ensures
            b.is_empty_book(false),
            b.depth_for_reporting() == depth_for_reporting,
            b.slab_capacity() == DEFAULT_SLAB_CAPACITY,
            forall|i: u32| #[trigger] b.frames(i) == fresh_frames(),
    {
        OrderBook::new_with_options_and_capacity(depth_for_reporting, false, DEFAULT_SLAB_CAPACITY)
    }

    /// An empty book that consumes trades if `consume_trades`.
    pub fn new_with_options(depth_for_reporting: usize, consume_trades: bool) -> (b: Self)
        ensures
            b.is_empty_book(consume_trades),
            b.depth_for_reporting() == depth_for_reporting,
            b.slab_capacity() == DEFAULT_SLAB_CAPACITY,
            forall|i: u32| #[trigger] b.frames(i) == fresh_frames(),
    {
        OrderBook::new_with_options_and_capacity(depth_for_reporting, consume_trades, DEFAULT_SLAB_CAPACITY)
    }

    /// An empty book whose instrument books start with room for
    /// `default_slab_capacity` orders.
    pub fn new_with_options_and_capacity(
        depth_for_reporting: usize,
        consume_trades: bool,
        default_slab_capacity: usize,
    ) -> (b: Self)
        ensures
            b.is_empty_book(consume_trades),
            b.depth_for_reporting() == depth_for_reporting,
            b.slab_capacity() == default_slab_capacity,
            forall|i: u32| #[trigger] b.frames(i) == fresh_frames(),
    {
        let b = OrderBook {
            _depth_for_reporting: depth_for_reporting,
            books: books_new(),
            index: index_new(),
            last_instr: None,
            consume_trades,
            default_slab_capacity,
        };
        assert(b@.books =~= Map::<u32, Shape>::empty());
        b
    }

    /// Says whether trades reduce the orders they name.
    pub fn set_consume_trades(&mut self, v: bool)
        requires
            old(self).wf(),
        ensures
            final(self).wf(),
            final(self)@ == (BookState { consume_trades: v, ..old(self)@ }),
            final(self).depth_for_reporting() == old(self).depth_for_reporting(),
            final(self).slab_capacity() == old(self).slab_capacity(),
    {
        self.consume_trades = v;
    }

    /// Whether `ev` can be applied within machine range.
    pub fn check(&self, ev: &Event) -> (ok: bool)
        requires
            self.wf(),
        ensures
            ok == self@.accepts(*ev),
    {
        match *ev {
            Event::Add { order_id, instr, px, qty, side } => {
                match books_get(&self.books, instr) {
                    Some(b) => b.check_add(px, qty, side),
                    None => true,
                }
            },
            Event::Mod { order_id, qty } => {
                match index_get(&self.index, order_id) {
                    Some(loc) => self.check_left(loc, qty as i128),
                    None => true,
                }
            },
            Event::Del { order_id } => {
                match index_get(&self.index, order_id) {
                    Some(loc) => self.check_left(loc, 0),
                    None => true,
                }
            },
            Event::Trade { instr, px, qty, maker_order_id, taker_side } => {
                if !self.consume_trades {
                    return true;
                }
                match maker_order_id {
                    Some(oid) => {
                        match index_get(&self.index, oid) {
                            Some(loc) => {
                                assert(self@.index.contains_key(oid));
                                match books_get(&self.books, loc.0) {
                                    Some(b) => {
                                        match b.order(loc.1) {
                                            Some(n) => self.check_left(loc, n.qty as i128 - qty as i128),
                                            None => false,
                                        }
                                    },
                                    None => false,
                                }
                            },
                            None => true,
                        }
                    },
                    None => true,
                }
            },
            Event::Heartbeat => true,
        }
    }

    /// Whether the order at `loc` can be left with `qty`.
    fn check_left(&self, loc: (u32, Handle), qty: i128) -> (ok: bool)
        requires
            self.wf(),
            self@.books.contains_key(loc.0),
        ensures
            ok == if qty > 0 {
                qty <= i64::MAX && self@.books[loc.0].can_set_qty(loc.1, qty as i64)
            } else {
                self@.books[loc.0].can_cancel(loc.1)
            },
    {
        match books_get(&self.books, loc.0) {
            Some(b) => {
                if qty > 0 {
                    if qty > i64::MAX as i128 {
                        false
                    } else {
                        b.check_set_qty(loc.1, qty as i64)
                    }
                } else {
                    b.check_cancel(loc.1)
                }
            },
            None => false,
        }
    }

    /// Leaves the live order `oid`, which rests at `loc`, with `qty`.
    fn leave(&mut self, oid: u64, loc: (u32, Handle), qty: i128)
        requires
            old(self).wf(),
            old(self)@.index.contains_key(oid),
            old(self)@.index[oid] == loc,
            if qty > 0 {
                qty <= i64::MAX && old(self)@.books[loc.0].can_set_qty(loc.1, qty as i64)
            } else {
                old(self)@.books[loc.0].can_cancel(loc.1)
            },
        ensures
            final(self).wf(),
            final(self)@ == old(self)@.with_left(oid, qty as int),
            final(self).depth_for_reporting() == old(self).depth_for_reporting(),
            final(self).slab_capacity() == old(self).slab_capacity(),
            forall|i: u32| #[trigger] final(self).frames(i) == old(self).frames(i),
    {
        let ghost st0 = self@;
        proof {
            lemma_left_keeps_wf(st0, oid, qty as int);
        }
        let book = books_entry(&mut self.books, loc.0, self.default_slab_capacity);
        if qty > 0 {
            book.set_qty(loc.1, qty as i64);
        } else {
            book.cancel(loc.1);
            let _ = index_remove(&mut self.index, oid);
        }
        proof {
            assert(self@.books =~= st0.with_left(oid, qty as int).books);
            assert(self@ == st0.with_left(oid, qty as int));
        }
    }

    /// Applies one event to the books.
    pub fn apply(&mut self, ev: &Event)
        requires
            old(self).wf(),
            old(self)@.accepts(*ev),
        ensures
            final(self).wf(),
            old(self)@.leads_to(*ev, final(self)@),
            final(self).depth_for_reporting() == old(self).depth_for_reporting(),
            final(self).slab_capacity() == old(self).slab_capacity(),
            forall|i: u32| #[trigger] final(self).frames(i) == frames_after(old(self).frames(i), *ev, i),
    {
        let ghost st0 = self@;
        match *ev {
            Event::Add { order_id, instr, px, qty, side } => {
                let book = books_entry(&mut self.books, instr, self.default_slab_capacity);
                let ghost b0 = *book;
                let h = book.add(px, qty, side);
                index_insert(&mut self.index, order_id, (instr, h));
                self.last_instr = Some(instr);
                proof {
                    lemma_event_keeps_wf(st0, *ev, h);
                    assert(self@.books =~= st0.after_event(*ev, h).books);
                    assert(self@ == st0.after_event(*ev, h));
                    let b1 = book_table(self.books)[instr];
                    assert(b1.frame(side) == b0.frame(side).after_put(px));
                    assert(b1.far_frame(side) == b0.far_frame(side));
                    assert((b0.bids.grid.frame(), b0.asks.grid.frame()) == old(self).frames(instr));
                    assert forall|i: u32| #[trigger]
                        self.frames(i) == frames_after(old(self).frames(i), *ev, i) by {
                        if i == instr {
                            match side {
                                Side::Bid => {},
                                Side::Ask => {},
                            }
                        }
                    }
                }
            },
            Event::Mod { order_id, qty } => {
                match index_get(&self.index, order_id) {
                    Some(loc) => {
                        self.leave(order_id, loc, qty as i128);
                        let ghost mid = *self;
                        self.last_instr = Some(loc.0);
                        assert forall|i: u32| #[trigger] self.frames(i) == old(self).frames(i) by {
                            assert(mid.frames(i) == old(self).frames(i));
                        }
                    },
                    None => {},
                }
            },
            Event::Del { order_id } => {
                match index_get(&self.index, order_id) {
                    Some(loc) => {
                        self.leave(order_id, loc, 0);
                        let ghost mid = *self;
                        self.last_instr = Some(loc.0);
                        assert forall|i: u32| #[trigger] self.frames(i) == old(self).frames(i) by {
                            assert(mid.frames(i) == old(self).frames(i));
                        }
                    },
                    None => {},
                }
            },
            Event::Trade { instr, px, qty, maker_order_id, taker_side } => {
                self.last_instr = Some(instr);
                if self.consume_trades {
                    match maker_order_id {
                        Some(oid) => {
                            match index_get(&self.index, oid) {
                                Some(loc) => {
                                    assert(st0.index.contains_key(oid));
                                    let held = match books_get(&self.books, loc.0) {
                                        Some(b) => match b.order(loc.1) {
                                            Some(n) => n.qty,
                                            None => 0,
                                        },
                                        None => 0,
                                    };
                                    self.leave(oid, loc, held as i128 - qty as i128);
                                },
                                None => {},
                            }
                        },
                        None => {},
                    }
                }
            },
            Event::Heartbeat => {},
        }
    }

    /// Applies `ev` if it can be applied within machine range; says whether it did.
    pub fn try_apply(&mut self, ev: &Event) -> (applied: bool)
        requires
            old(self).wf(),
        ensures
            final(self).wf(),
            applied == old(self)@.accepts(*ev),
            applied ==> old(self)@.leads_to(*ev, final(self)@),
            !applied ==> final(self)@ == old(self)@,
            final(self).depth_for_reporting() == old(self).depth_for_reporting(),
            final(self).slab_capacity() == old(self).slab_capacity(),
            forall|i: u32| #[trigger]
                final(self).frames(i) == if applied {
                    frames_after(old(self).frames(i), *ev, i)
                } else {
                    old(self).frames(i)
                },
    {
        if self.check(ev) {
            self.apply(ev);
            true
        } else {
            false
        }
    }

    /// The best bid and ask of the instrument of the last event, if that
    /// instrument has a book.
    pub fn bbo(&self) -> (r: (Option<(i64, i64)>, Option<(i64, i64)>))
        requires
            self.wf(),
        ensures
            match self@.last_instr {
                Some(i) if self@.books.contains_key(i) => {
                    &&& crate::instrument::is_bbo_pair(self@.books[i].bids, true, r.0)
                    &&& crate::instrument::is_bbo_pair(self@.books[i].asks, false, r.1)
                },
                _ => r.0 is None && r.1 is None,
            },
    {
        match self.last_instr {
            Some(instr) => {
                match books_get(&self.books, instr) {
                    Some(b) => b.bbo(),
                    None => (None, None),
                }
            },
            None => (None, None),
        }
    }

    /// The number of live orders.
    pub fn order_count(&self) -> (n: usize)
        ensures
            n == self@.index.dom().len(),
    {
        index_len(&self.index)
    }

    /// The instrument of live order `order_id`.
    pub fn instrument_for_order(&self, order_id: u64) -> (r: Option<u32>)
        ensures
            r == if self@.index.contains_key(order_id) {
                Some(self@.index[order_id].0)
            } else {
                None
            },
    {
        match index_get(&self.index, order_id) {
            Some(loc) => Some(loc.0),
            None => None,
        }
    }

    /// Applies the events of a batch in order and stops before the first
    /// that cannot be applied within machine range. Returns how many were
    /// applied. `instr` names the instrument that the caller gathered the
    /// batch for; events of other instruments are applied all the same, so
    /// the result does not depend on it.
    pub fn apply_many_for_instr(&mut self, instr: u32, events: &[Event]) -> (n: usize)
        requires
            old(self).wf(),
        ensures
            final(self).wf(),
            n <= events@.len(),
            old(self)@.reaches(events@.take(n as int), final(self)@),
            n < events@.len() ==> !final(self)@.accepts(events@[n as int]),
            final(self).depth_for_reporting() == old(self).depth_for_reporting(),
            final(self).slab_capacity() == old(self).slab_capacity(),
            forall|i: u32| #[trigger]
                final(self).frames(i) == frames_after_all(old(self).frames(i), events@.take(n as int), i),
    {
        let ghost st0 = self@;
        let _ = instr;
        let mut i: usize = 0;
        assert(events@.take(0) =~= Seq::<Event>::empty());
        while i < events.len()
            invariant
                self.wf(),
                i <= events@.len(),
                st0 == old(self)@,
                st0.reaches(events@.take(i as int), self@),
                self.depth_for_reporting() == old(self).depth_for_reporting(),
                self.slab_capacity() == old(self).slab_capacity(),
                forall|k: u32| #[trigger]
                    self.frames(k) == frames_after_all(old(self).frames(k), events@.take(i as int), k),
            decreases events@.len() - i,
        {
            let ghost mid = self@;
            if !self.try_apply(&events[i]) {
                return i;
            }
            proof {
                let evs = events@.take(i + 1);
                assert(evs.drop_last() =~= events@.take(i as int));
                assert(evs.last() == events@[i as int]);
                assert(mid.leads_to(evs.last(), self@));
            }
            i += 1;
        }
        assert(events@.take(i as int) =~= events@);
        i
    }

    /// The first `n` bid and ask levels of `instr`, if it has a book.
    pub fn top_n_of(&self, instr: u32, n: usize) -> (r: Option<(Depth32, Depth32)>)
        requires
            self.wf(),
        ensures
            r is Some <==> self@.books.contains_key(instr),
            r matches Some(d) ==> {
                &&& d.0@ == crate::instrument::depth_of(
                    self@.books[instr].bids,
                    self.book(instr).bids.level_order(true),
                    n as int,
                )
                &&& d.1@ == crate::instrument::depth_of(
                    self@.books[instr].asks,
                    self.book(instr).asks.level_order(false),
                    n as int,
                )
                &&& self.book(instr).walkable()
            },
    {
        match books_get(&self.books, instr) {
            Some(b) => Some(b.top_n(n)),
            None => None,
        }
    }

    /// The book of `instr`.
    pub closed spec fn book(self, instr: u32) -> InstrumentBook {
        book_table(self.books)[instr]
    }

    /// `exp` is an export of the books: it carries the current version, it
    /// has one entry for each instrument that has a book, and the entry of
    /// an instrument lists the orders of its book, bids from the best price
    /// to the worst and then asks from the best price to the worst.
    pub open spec fn exports(self, exp: BookExport) -> bool {
        &&& exp.version == EXPORT_VERSION
        &&& forall|i: int, j: int|
            0 <= i < j < exp.instruments@.len() ==> exp.instruments@[i].instr != exp.instruments@[j].instr
        &&& forall|i: int|
            0 <= i < exp.instruments@.len() ==> self@.books.contains_key(#[trigger] exp.instruments@[i].instr)
        &&& forall|instr: u32|
            self@.books.contains_key(instr) ==> exists|i: int|
                0 <= i < exp.instruments@.len() && #[trigger] exp.instruments@[i].instr == instr
        &&& forall|i: int|
            0 <= i < exp.instruments@.len() ==> (#[trigger] exp.instruments@[i]).orders@ == book_orders(
                self@.books[exp.instruments@[i].instr],
                self@.index,
                exp.instruments@[i].instr,
            )
        &&& forall|i: int|
            0 <= i < exp.instruments@.len() ==> listable(self@.books[(#[trigger] exp.instruments@[i]).instr])
    }

    /// The book of an instrument is sound and has the shape that the state shows.
    pub proof fn lemma_book(self, instr: u32)
        requires
            self.wf(),
            self@.books.contains_key(instr),
        ensures
            self.book(instr).wf(),
            self.book(instr)@ == self@.books[instr],
            self.frames(instr) == (self.book(instr).bids.grid.frame(), self.book(instr).asks.grid.frame()),
    {
    }

    /// Depth lists are fixed by the levels and by where the grids lie.
    ///
    /// Take two order books whose books of `instr` have levels at the same
    /// prices and grids that lie alike. Then both walk the levels of each
    /// side in the same order: the levels in the grid, best first, then the
    /// levels past it, best first. Where the grids lie follows from the
    /// events applied, as `frames_after` says.
    pub proof fn lemma_depth_by_frames(self, other: OrderBook, instr: u32)
        requires
            self.wf(),
            other.wf(),
            self@.books.contains_key(instr),
            other@.books.contains_key(instr),
            self.frames(instr) == other.frames(instr),
            self@.books[instr].bids.dom() == other@.books[instr].bids.dom(),
            self@.books[instr].asks.dom() == other@.books[instr].asks.dom(),
            self.book(instr).walkable(),
        ensures
            self.book(instr).bids.level_order(true) == other.book(instr).bids.level_order(true),
            self.book(instr).asks.level_order(false) == other.book(instr).asks.level_order(false),
    {
        let a = self.book(instr);
        let b = other.book(instr);
        self.lemma_book(instr);
        other.lemma_book(instr);
        a.lemma_sides_nonempty();
        b.lemma_sides_nonempty();
        a.bids.lemma_walk_by_frame(b.bids, true);
        a.asks.lemma_walk_by_frame(b.asks, false);
    }

    /// The instruments that have a book, each once, in no particular order.
    pub fn instruments(&self) -> (r: Vec<u32>)
        ensures
            r@.no_duplicates(),
            r@.to_set() == self@.books.dom(),
    {
        let r = books_keys(&self.books);
        assert(r@.to_set() =~= self@.books.dom());
        r
    }

    /// Appends the exported orders of one side of `book` to `out`.
    fn export_side(
        book: &InstrumentBook,
        owners: &Table<(u32, Handle), u64>,
        instr: u32,
        side: Side,
        out: &mut Vec<OrderExport>,
        Ghost(index): Ghost<Map<u64, (u32, usize)>>,
    )
        requires
            book.wf(),
            forall|loc: (u32, usize)| lookup(handle_owners(*owners), loc) == owner(index, loc),
        ensures
            final(out)@ == old(out)@ + side_orders(
                book@,
                index,
                instr,
                side,
                price_order(book@.levels(side), side == Side::Bid),
            ),
            is_price_order(book@.levels(side), side == Side::Bid, price_order(book@.levels(side), side == Side::Bid)),
    {
        let ghost out0 = out@;
        proof {
            book.lemma_sides_nonempty();
        }
        let prices = match side {
            Side::Bid => book.bids.sorted_prices(true),
            Side::Ask => book.asks.sorted_prices(false),
        };
        let mut pi: usize = 0;
        assert(prices@.take(0) =~= Seq::<i64>::empty());
        assert(out@ =~= out0 + side_orders(book@, index, instr, side, prices@.take(0)));
        while pi < prices.len()
            invariant
                book.wf(),
                forall|loc: (u32, usize)| lookup(handle_owners(*owners), loc) == owner(index, loc),
                pi <= prices@.len(),
                out@ == out0 + side_orders(book@, index, instr, side, prices@.take(pi as int)),
            decreases prices@.len() - pi,
        {
            let price = prices[pi];
            let handles = book.fifo_handles(side, price);
            let ghost c = handles@;
            let ghost start = out@;
            let mut hi: usize = 0;
            assert(c.take(0) =~= Seq::<usize>::empty());
            assert(out@ =~= start + chain_orders(book@, index, instr, side, price, c.take(0)));
            proof {
                assert forall|x: int| 0 <= x < c.len() implies book@.nodes.contains_key(c[x]) by {
                    crate::shape::lemma_member_key(book@, (side, price), x);
                }
            }
            while hi < handles.len()
                invariant
                    book.wf(),
                    forall|loc: (u32, usize)| lookup(handle_owners(*owners), loc) == owner(index, loc),
                    forall|x: int| 0 <= x < c.len() ==> book@.nodes.contains_key(c[x]),
                    c == handles@,
                    hi <= c.len(),
                    out@ == start + chain_orders(book@, index, instr, side, price, c.take(hi as int)),
                decreases c.len() - hi,
            {
                let h = handles[hi];
                let qty = match book.order(h) {
                    Some(n) => n.qty,
                    None => 0,
                };
                proof {
                    let t = c.take(hi + 1);
                    assert(t.drop_last() =~= c.take(hi as int));
                    assert(t.last() == h);
                    assert(lookup(handle_owners(*owners), (instr, h)) == owner(index, (instr, h)));
                    assert(book@.nodes.contains_key(c[hi as int]));
                }
                match owners_get(owners, (instr, h)) {
                    Some(oid) => {
                        out.push(OrderExport { order_id: oid, price, qty, side });
                        proof {
                            let before = chain_orders(book@, index, instr, side, price, c.take(hi as int));
                            assert(out@ =~= start + before.push(
                                OrderExport { order_id: oid, price, qty, side },
                            ));
                        }
                    },
                    None => {},
                }
                hi += 1;
            }
            proof {
                assert(c.take(hi as int) =~= c);
                let t = prices@.take(pi + 1);
                assert(t.drop_last() =~= prices@.take(pi as int));
                assert(t.last() == price);
                let before = side_orders(book@, index, instr, side, prices@.take(pi as int));
                assert(out0 + before + chain_orders(book@, index, instr, side, price, c) =~= out0 + (before
                    + chain_orders(book@, index, instr, side, price, c)));
            }
            pi += 1;
        }
        assert(prices@.take(pi as int) =~= prices@);
    }

    /// The resting orders of every instrument. The instruments come in no
    /// particular order; the orders of an instrument come bids first, from
    /// the highest price down, and then asks, from the lowest price up,
    /// oldest order first within a level.
    /// Orders that the index does not name are left out.
    pub fn export(&self) -> (exp: BookExport)
        requires
            self.wf(),
        ensures
            self.exports(exp),
    {
        let owners = self.owners();
        let keys = self.instruments();
        let mut instruments: Vec<InstrumentExport> = Vec::new();
        let mut i: usize = 0;
        while i < keys.len()
            invariant
                self.wf(),
                keys@.no_duplicates(),
                keys@.to_set() == self@.books.dom(),
                forall|loc: (u32, usize)| lookup(handle_owners(owners), loc) == owner(self@.index, loc),
                i <= keys@.len(),
                instruments@.len() == i,
                forall|j: int| 0 <= j < i ==> (#[trigger] instruments@[j]).instr == keys@[j],
                forall|j: int|
                    0 <= j < i ==> (#[trigger] instruments@[j]).orders@ == book_orders(
                        self@.books[keys@[j]],
                        self@.index,
                        keys@[j],
                    ),
                forall|j: int| 0 <= j < i ==> listable(self@.books[#[trigger] keys@[j]]),
            decreases keys@.len() - i,
        {
            let instr = keys[i];
            proof {
                assert(keys@.to_set().contains(keys@[i as int]));
            }
            let mut orders: Vec<OrderExport> = Vec::new();
            match books_get(&self.books, instr) {
                Some(book) => {
                    OrderBook::export_side(book, &owners, instr, Side::Bid, &mut orders, Ghost(self@.index));
                    OrderBook::export_side(book, &owners, instr, Side::Ask, &mut orders, Ghost(self@.index));
                },
                None => {},
            }
            assert(orders@ =~= book_orders(self@.books[instr], self@.index, instr));
            instruments.push(InstrumentExport { instr, orders });
            i += 1;
        }
        proof {
            assert forall|a: int, b: int| 0 <= a < b < instruments@.len() implies instruments@[a].instr
                != instruments@[b].instr by {
                assert(keys@[a] != keys@[b]);
            }
            assert forall|i: int| 0 <= i < instruments@.len() implies self@.books.contains_key(
                #[trigger] instruments@[i].instr,
            ) by {
                assert(keys@.to_set().contains(keys@[i]));
            }
            assert forall|i: int| 0 <= i < instruments@.len() implies listable(
                self@.books[(#[trigger] instruments@[i]).instr],
            ) by {
                assert(listable(self@.books[keys@[i]]));
            }
        }
        let exp = BookExport { version: EXPORT_VERSION, instruments };
        proof {
            assert forall|instr: u32| self@.books.contains_key(instr) implies exists|i: int|
                0 <= i < exp.instruments@.len() && #[trigger] exp.instruments@[i].instr == instr by {
                assert(keys@.to_set().contains(instr));
                let j = choose|j: int| 0 <= j < keys@.len() && keys@[j] == instr;
                assert(exp.instruments@[j].instr == instr);
            }
        }
        exp
    }

    /// Rebuilds the books from an export: every order is added in the order
    /// of the export. Gives nothing exactly if an order cannot be added
    /// within machine range, which does not depend on the handles the node
    /// stores hand out.
    pub fn from_export(exp: BookExport) -> (r: Option<Self>)
        ensures
            r matches Some(b) ==> {
                &&& b.wf()
                &&& exists|end: BookState| #[trigger]
                    rebuilt_start().reaches(export_events(exp.instruments@, exp.instruments@.len() as int), end)
                        && b@ == (BookState {
                        last_instr: last_instrument(exp.instruments@, exp.instruments@.len() as int),
                        ..end
                    })
                &&& forall|i: u32| #[trigger]
                    b.frames(i) == frames_after_all(
                        fresh_frames(),
                        export_events(exp.instruments@, exp.instruments@.len() as int),
                        i,
                    )
            },
            r is Some <==> replayable(exp),
    {
        let mut ob = OrderBook::new(10);
        let ghost all = export_events(exp.instruments@, exp.instruments@.len() as int);
        let ghost mut end = ob@;
        let mut i: usize = 0;
        while i < exp.instruments.len()
            invariant
                ob.wf(),
                i <= exp.instruments@.len(),
                all == export_events(exp.instruments@, exp.instruments@.len() as int),
                rebuilt_start().reaches(export_events(exp.instruments@, i as int), end),
                ob@ == (BookState { last_instr: last_instrument(exp.instruments@, i as int), ..end }),
                export_events(exp.instruments@, i as int) == all.take(
                    export_events(exp.instruments@, i as int).len() as int,
                ),
                export_events(exp.instruments@, i as int).len() <= all.len(),
                forall|k: u32| #[trigger]
                    ob.frames(k) == frames_after_all(fresh_frames(), export_events(exp.instruments@, i as int), k),
            decreases exp.instruments@.len() - i,
        {
            let instr = exp.instruments[i].instr;
            let ghost done = export_events(exp.instruments@, i as int);
            let ghost these = add_events(instr, exp.instruments@[i as int].orders@);
            proof {
                lemma_export_events_prefix(exp.instruments@, i as int + 1);
                assert(export_events(exp.instruments@, i as int + 1) == done + these);
            }
            let mut j: usize = 0;
            assert(these.take(0) =~= Seq::<Event>::empty());
            assert(done + these.take(0) =~= done);
            while j < exp.instruments[i].orders.len()
                invariant
                    ob.wf(),
                    i < exp.instruments@.len(),
                    all == export_events(exp.instruments@, exp.instruments@.len() as int),
                    instr == exp.instruments@[i as int].instr,
                    these == add_events(instr, exp.instruments@[i as int].orders@),
                    j <= these.len(),
                    done + these == all.take((done.len() + these.len()) as int),
                    done.len() + these.len() <= all.len(),
                    rebuilt_start().reaches(done + these.take(j as int), end),
                    ob@.books == end.books,
                    ob@.index == end.index,
                    ob@.consume_trades == end.consume_trades,
                    forall|k: u32| #[trigger]
                        ob.frames(k) == frames_after_all(fresh_frames(), done + these.take(j as int), k),
                decreases these.len() - j,
            {
                let o = exp.instruments[i].orders[j];
                let ev = Event::Add { order_id: o.order_id, instr, px: o.price, qty: o.qty, side: o.side };
                assert(ev == these[j as int]);
                let ghost before = ob@;
                let ghost prev_end = end;
                proof {
                    assert(prev_end.accepts(ev) == before.accepts(ev));
                }
                if !ob.try_apply(&ev) {
                    proof {
                        let n = done.len() + j;
                        let m = (done.len() + these.len()) as int;
                        assert(all.take(m)[n as int] == all[n as int]);
                        assert((done + these)[n as int] == these[j as int]);
                        assert(all.take(n as int) =~= all.take(m).take(n as int));
                        assert(all.take(n as int) =~= done + these.take(j as int));
                        assert(all[n as int] == ev);
                        let full = export_events(exp.instruments@, exp.instruments@.len() as int);
                        assert(full == all);
                        assert(0 <= n < full.len());
                        assert(rebuilt_start().reaches(full.take(n as int), prev_end));
                        assert(!prev_end.accepts(full[n as int]));
                        crate::roundtrip::lemma_start((0, Side::Bid, 0));
                        crate::determinism::lemma_rejected_for_all(rebuilt_start(), full, n as int, prev_end);
                    }
                    return None;
                }
                proof {
                    let h = ob@.handle_of(ev);
                    end = ob@;
                    assert(prev_end.leads_to(ev, end));
                    let run = done + these.take(j + 1);
                    assert(run.drop_last() =~= done + these.take(j as int));
                    assert(run.last() == ev);
                }
                j += 1;
            }
            let ghost filled = ob;
            ob.last_instr = Some(instr);
            proof {
                assert(these.take(j as int) =~= these);
                assert forall|k: u32| #[trigger]
                    ob.frames(k) == frames_after_all(
                        fresh_frames(),
                        export_events(exp.instruments@, i as int + 1),
                        k,
                    ) by {
                    assert(filled.frames(k) == frames_after_all(fresh_frames(), done + these, k));
                }
            }
            i += 1;
        }
        Some(ob)
    }

    /// The table from order locations to order ids.
    fn owners(&self) -> (t: Table<(u32, Handle), u64>)
        requires
            self.wf(),
        ensures
            forall|loc: (u32, usize)| lookup(handle_owners(t), loc) == owner(self@.index, loc),
    {
        let pairs = index_pairs(&self.index);
        let mut t = owners_with_capacity(pairs.len());
        let ghost idx = self@.index;
        let mut i: usize = 0;
        while i < pairs.len()
            invariant
                self.wf(),
                idx == self@.index,
                i <= pairs@.len(),
                forall|a: int, b: int| 0 <= a < b < pairs@.len() ==> pairs@[a].0 != pairs@[b].0,
                forall|a: int|
                    0 <= a < pairs@.len() ==> idx.contains_key(pairs@[a].0) && idx[pairs@[a].0]
                        == pairs@[a].1,
                forall|loc: (u32, usize)|
                    handle_owners(t).contains_key(loc) ==> exists|a: int|
                        0 <= a < i && pairs@[a].1 == loc && #[trigger] pairs@[a].0 == handle_owners(t)[loc],
                forall|a: int| 0 <= a < i ==> handle_owners(t).contains_key(#[trigger] pairs@[a].1),
            decreases pairs@.len() - i,
        {
            let e = pairs[i];
            let ghost t0 = t;
            owners_insert(&mut t, e.1, e.0);
            proof {
                assert forall|loc: (u32, usize)| handle_owners(t).contains_key(loc) implies exists|a: int|
                    0 <= a < i + 1 && pairs@[a].1 == loc && #[trigger] pairs@[a].0 == handle_owners(t)[loc] by {
                    if loc == e.1 {
                        assert(pairs@[i as int].0 == handle_owners(t)[loc]);
                    } else {
                        assert(handle_owners(t0).contains_key(loc));
                        let a = choose|a: int|
                            0 <= a < i && pairs@[a].1 == loc && #[trigger] pairs@[a].0 == handle_owners(t0)[loc];
                        assert(pairs@[a].0 == handle_owners(t)[loc]);
                    }
                }
            }
            i += 1;
        }
        proof {
            assert forall|loc: (u32, usize)| lookup(handle_owners(t), loc) == owner(idx, loc) by {
                if handle_owners(t).contains_key(loc) {
                    let a = choose|a: int|
                        0 <= a < i && pairs@[a].1 == loc && #[trigger] pairs@[a].0 == handle_owners(t)[loc];
                    let o = pairs@[a].0;
                    assert(idx.contains_key(o) && idx[o] == loc);
                    let o2 = choose|o: u64| idx.contains_key(o) && idx[o] == loc;
                    assert(idx.contains_key(o2) && idx.contains_key(o));
                } else {
                    if exists|o: u64| idx.contains_key(o) && idx[o] == loc {
                        let o = choose|o: u64| idx.contains_key(o) && idx[o] == loc;
                        let a = choose|a: int| 0 <= a < pairs@.len() && pairs@[a].0 == o;
                        assert(handle_owners(t).contains_key(pairs@[a].1));
                    }
                }
            }
        }
        t
    }
}

} // verus!
