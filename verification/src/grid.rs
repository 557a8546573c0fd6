//! The tick grid: a fixed run of price slots around the first price seen.
//!
//! Slot `i` stands for the price `start_price + i * tick`. The grid is
//! centred on the first price stored in it and never moves afterwards.
use vstd::prelude::*;
use vstd::arithmetic::div_mod::{lemma_fundamental_div_mod, lemma_fundamental_div_mod_converse};
use vstd::arithmetic::mul::{lemma_mul_inequality, lemma_mul_strict_inequality};
use crate::level::{lookup, Level};

verus! {

/// A fixed-length vector of optional levels addressed by price.
pub struct PriceGrid {
    pub initialized: bool,
    /// The price of slot 0.
    pub start_price: i64,
    pub tick: i64,
    pub slots: Vec<Option<Level>>,
}

/// Where a grid of `len` slots with tick `tick` starts when it is centred on
/// `price`: half its length below the price rounded down to a multiple of
/// the tick, but not below the lowest 64-bit price.
pub open spec fn centred_start(price: i64, tick: i64, len: int) -> int {
    let s = price - (price as int) % (tick as int) - (len / 2) * tick;
    if s < i64::MIN {
        i64::MIN as int
    } else {
        s
    }
}

/// Where a grid lies: whether a first price has centred it, the price of
/// its first slot, the width of a slot and the number of slots.
pub struct GridFrame {
    pub centred: bool,
    pub start_price: i64,
    pub tick: i64,
    pub span: nat,
}

impl GridFrame {
    /// The frame of a grid of `span` slots of width `tick` that no price has
    /// centred yet.
    pub open spec fn unset(tick: i64, span: nat) -> GridFrame {
        GridFrame { centred: false, start_price: 0, tick, span }
    }

    /// The frame once a level was stored at `price`: as it was, or, if this
    /// is the first price the grid sees, centred on that price.
    pub open spec fn after_put(self, price: i64) -> GridFrame {
        if self.centred {
            self
        } else {
            GridFrame {
                centred: true,
                start_price: centred_start(price, self.tick, self.span as int) as i64,
                ..self
            }
        }
    }
}

impl PriceGrid {
    /// Where the grid lies. Until a price has centred the grid, its first
    /// slot stands for no price, and the frame gives 0 for it.
    pub open spec fn frame(self) -> GridFrame {
        GridFrame {
            centred: self.initialized,
            start_price: if self.initialized {
                self.start_price
            } else {
                0
            },
            tick: self.tick,
            span: self.slots@.len(),
        }
    }

    /// The price that slot `i` stands for.
    pub open spec fn price_at(self, i: int) -> int {
        self.start_price + i * self.tick
    }

    /// The slot of `price`, if the grid has one for it.
    pub open spec fn spec_price_to_idx(self, price: i64) -> Option<int> {
        let d = price - self.start_price;
        let t = self.tick as int;
        if self.initialized && t > 0 && d >= 0 && d % t == 0 && d / t < self.slots@.len() {
            Some(d / t)
        } else {
            None
        }
    }

    /// The tick is positive, a grid that was never centred is empty, and
    /// every occupied slot stands for a 64-bit price.
    pub open spec fn wf(self) -> bool {
        &&& self.tick >= 1
        &&& (!self.initialized ==> forall|i: int| 0 <= i < self.slots@.len() ==> self.slots@[i] is None)
        &&& forall|i: int|
            0 <= i < self.slots@.len() && (#[trigger] self.slots@[i]) is Some ==> self.price_at(i)
                <= i64::MAX
    }

    /// The levels of the grid by price.
    pub open spec fn view(self) -> Map<i64, Level> {
        Map::new(
            |p: i64|
                self.spec_price_to_idx(p) is Some && self.slots@[self.spec_price_to_idx(p).unwrap()] is Some,
            |p: i64| self.slots@[self.spec_price_to_idx(p).unwrap()].unwrap(),
        )
    }

    /// Slot `i` holds a level with at least one order.
    pub open spec fn occupied(self, i: int) -> bool {
        self.slots@[i] matches Some(l) && l.count != 0
    }

    /// `p` has a slot among the slots from `lo` up to, not including, `hi`,
    /// and that slot is occupied.
    pub open spec fn has_orders_in(self, p: i64, lo: int, hi: int) -> bool {
        match self.spec_price_to_idx(p) {
            Some(i) => lo <= i < hi && self.occupied(i),
            None => false,
        }
    }

    /// The prices of the occupied slots from `n` upwards, highest first.
    pub open spec fn prices_desc_from(self, n: int) -> Seq<i64>
        decreases self.slots@.len() - n,
    {
        if n < 0 || n >= self.slots@.len() {
            Seq::empty()
        } else if self.occupied(n) {
            self.prices_desc_from(n + 1).push(self.price_at(n) as i64)
        } else {
            self.prices_desc_from(n + 1)
        }
    }

    /// The prices of the occupied slots below `n`, lowest first.
    pub open spec fn prices_asc_upto(self, n: int) -> Seq<i64>
        decreases n,
    {
        if n <= 0 || n > self.slots@.len() {
            Seq::empty()
        } else if self.occupied(n - 1) {
            self.prices_asc_upto(n - 1).push(self.price_at(n - 1) as i64)
        } else {
            self.prices_asc_upto(n - 1)
        }
    }

    /// The prices of the occupied slots, best first: highest first when
    /// `descending`, else lowest first.
    pub open spec fn spec_prices(self, descending: bool) -> Seq<i64> {
        if descending {
            self.prices_desc_from(0)
        } else {
            self.prices_asc_upto(self.slots@.len() as int)
        }
    }

    /// The slot of the price of slot `i` is `i`.
    pub proof fn lemma_idx_of_price_at(self, i: int)
        requires
            self.tick >= 1,
            self.initialized,
            0 <= i < self.slots@.len(),
            self.price_at(i) <= i64::MAX,
        ensures
            self.start_price <= self.price_at(i),
            self.spec_price_to_idx(self.price_at(i) as i64) == Some(i),
    {
        let t = self.tick as int;
        lemma_mul_inequality(0, i, t);
        lemma_fundamental_div_mod_converse(i * t, t, i, 0);
    }

    /// A price that has a slot is the price of that slot.
    pub proof fn lemma_price_of_idx(self, price: i64)
        requires
            self.spec_price_to_idx(price) is Some,
        ensures
            self.price_at(self.spec_price_to_idx(price).unwrap()) == price,
            0 <= self.spec_price_to_idx(price).unwrap() < self.slots@.len(),
    {
        let t = self.tick as int;
        let d = price - self.start_price;
        lemma_fundamental_div_mod(d, t);
        assert(t * (d / t) == (d / t) * t) by (nonlinear_arith);
        assert(d / t >= 0) by (nonlinear_arith)
            requires
                d >= 0,
                t > 0,
        ;
    }

    /// Higher slots stand for higher prices.
    pub proof fn lemma_price_monotone(self, i: int, j: int)
        requires
            self.tick >= 1,
            i < j,
        ensures
            self.price_at(i) < self.price_at(j),
    {
        lemma_mul_strict_inequality(i, j, self.tick as int);
    }

    /// A price is listed from slot `n` upwards exactly if its slot is
    /// occupied and not below `n`; no price is listed twice.
    pub proof fn lemma_prices_desc(self, n: int)
        requires
            self.wf(),
            self.initialized,
            0 <= n,
        ensures
            forall|p: i64|
                #[trigger] self.prices_desc_from(n).contains(p) <==> self.has_orders_in(
                    p,
                    n,
                    self.slots@.len() as int,
                ),
            self.prices_desc_from(n).no_duplicates(),
        decreases self.slots@.len() - n,
    {
        if n < self.slots@.len() {
            self.lemma_prices_desc(n + 1);
            let rest = self.prices_desc_from(n + 1);
            if self.occupied(n) {
                let pn = self.price_at(n) as i64;
                self.lemma_idx_of_price_at(n);
                let s = rest.push(pn);
                assert forall|p: i64| #[trigger] s.contains(p) <==> self.has_orders_in(
                    p,
                    n,
                    self.slots@.len() as int,
                ) by {
                    if s.contains(p) {
                        let k = choose|k: int| 0 <= k < s.len() && s[k] == p;
                        if k < rest.len() {
                            assert(rest.contains(p));
                        }
                    }
                    if self.has_orders_in(p, n, self.slots@.len() as int) {
                        self.lemma_price_of_idx(p);
                        let i = self.spec_price_to_idx(p).unwrap();
                        if i == n {
                            assert(s[rest.len() as int] == p);
                        } else {
                            assert(rest.contains(p));
                            let k = choose|k: int| 0 <= k < rest.len() && rest[k] == p;
                            assert(s[k] == p);
                        }
                    }
                }
                assert(!rest.contains(pn));
                assert forall|a: int, b: int| 0 <= a < s.len() && 0 <= b < s.len() && a != b implies s[a]
                    != s[b] by {
                    if a == rest.len() {
                        assert(rest.contains(s[b]));
                    } else if b == rest.len() {
                        assert(rest.contains(s[a]));
                    }
                }
            } else {
                assert forall|p: i64| #[trigger]
                    self.prices_desc_from(n).contains(p) <==> self.has_orders_in(
                        p,
                        n,
                        self.slots@.len() as int,
                    ) by {
                    assert(self.prices_desc_from(n + 1).contains(p) <==> self.has_orders_in(
                        p,
                        n + 1,
                        self.slots@.len() as int,
                    ));
                }
            }
        }
    }

    /// A price is listed below slot `n` exactly if its slot is occupied and
    /// below `n`; no price is listed twice.
    pub proof fn lemma_prices_asc(self, n: int)
        requires
            self.wf(),
            self.initialized,
            n <= self.slots@.len(),
        ensures
            forall|p: i64| #[trigger] self.prices_asc_upto(n).contains(p) <==> self.has_orders_in(p, 0, n),
            self.prices_asc_upto(n).no_duplicates(),
        decreases n,
    {
        if n > 0 {
            self.lemma_prices_asc(n - 1);
            let rest = self.prices_asc_upto(n - 1);
            if self.occupied(n - 1) {
                let pn = self.price_at(n - 1) as i64;
                self.lemma_idx_of_price_at(n - 1);
                let s = rest.push(pn);
                assert forall|p: i64| #[trigger] s.contains(p) <==> self.has_orders_in(p, 0, n) by {
                    if s.contains(p) {
                        let k = choose|k: int| 0 <= k < s.len() && s[k] == p;
                        if k < rest.len() {
                            assert(rest.contains(p));
                        }
                    }
                    if self.has_orders_in(p, 0, n) {
                        self.lemma_price_of_idx(p);
                        let i = self.spec_price_to_idx(p).unwrap();
                        if i == n - 1 {
                            assert(s[rest.len() as int] == p);
                        } else {
                            assert(rest.contains(p));
                            let k = choose|k: int| 0 <= k < rest.len() && rest[k] == p;
                            assert(s[k] == p);
                        }
                    }
                }
                assert(!rest.contains(pn));
                assert forall|a: int, b: int| 0 <= a < s.len() && 0 <= b < s.len() && a != b implies s[a]
                    != s[b] by {
                    if a == rest.len() {
                        assert(rest.contains(s[b]));
                    } else if b == rest.len() {
                        assert(rest.contains(s[a]));
                    }
                }
            } else {
                assert forall|p: i64| #[trigger]
                    self.prices_asc_upto(n).contains(p) <==> self.has_orders_in(p, 0, n) by {
                    assert(self.prices_asc_upto(n - 1).contains(p) <==> self.has_orders_in(p, 0, n - 1));
                }
            }
        }
    }

    /// The prices listed below slot `n` rise and stay below the price of slot `n`.
    pub proof fn lemma_prices_asc_rise(self, n: int)
        requires
            self.wf(),
            self.initialized,
            n <= self.slots@.len(),
        ensures
            forall|i: int, j: int|
                0 <= i < j < self.prices_asc_upto(n).len() ==> self.prices_asc_upto(n)[i]
                    < self.prices_asc_upto(n)[j],
            forall|i: int|
                0 <= i < self.prices_asc_upto(n).len() ==> (#[trigger] self.prices_asc_upto(n)[i])
                    < self.price_at(n),
        decreases n,
    {
        if n > 0 {
            self.lemma_prices_asc_rise(n - 1);
            self.lemma_price_monotone(n - 1, n);
            let rest = self.prices_asc_upto(n - 1);
            let s = self.prices_asc_upto(n);
            if self.occupied(n - 1) {
                self.lemma_idx_of_price_at(n - 1);
                let pn = self.price_at(n - 1) as i64;
                assert(s == rest.push(pn));
                assert forall|i: int, j: int| 0 <= i < j < s.len() implies s[i] < s[j] by {
                    assert(s[i] == rest[i]);
                    if j < rest.len() {
                        assert(s[j] == rest[j]);
                    }
                }
                assert forall|i: int| 0 <= i < s.len() implies (#[trigger] s[i]) < self.price_at(n) by {
                    if i < rest.len() {
                        assert(s[i] == rest[i]);
                    }
                }
            } else {
                assert(s == rest);
            }
        }
    }

    /// Grids that lie alike and have orders in the same slots list the same
    /// prices below slot `n`.
    proof fn lemma_same_prices_asc(self, other: PriceGrid, n: int)
        requires
            self.wf(),
            other.wf(),
            self.frame() == other.frame(),
            forall|i: int| 0 <= i < self.slots@.len() ==> self.occupied(i) == other.occupied(i),
        ensures
            self.prices_asc_upto(n) == other.prices_asc_upto(n),
        decreases n,
    {
        if 0 < n <= self.slots@.len() {
            self.lemma_same_prices_asc(other, n - 1);
            assert(self.occupied(n - 1) == other.occupied(n - 1));
        }
    }

    /// Grids that lie alike and have orders in the same slots list the same
    /// prices from slot `n` upwards.
    proof fn lemma_same_prices_desc(self, other: PriceGrid, n: int)
        requires
            self.wf(),
            other.wf(),
            self.frame() == other.frame(),
            forall|i: int| 0 <= i < self.slots@.len() ==> self.occupied(i) == other.occupied(i),
        ensures
            self.prices_desc_from(n) == other.prices_desc_from(n),
        decreases self.slots@.len() - n,
    {
        if 0 <= n < self.slots@.len() {
            self.lemma_same_prices_desc(other, n + 1);
            assert(self.occupied(n) == other.occupied(n));
        }
    }

    /// Grids that lie alike and have orders in the same slots list the same prices.
    pub proof fn lemma_same_prices(self, other: PriceGrid, descending: bool)
        requires
            self.wf(),
            other.wf(),
            self.frame() == other.frame(),
            forall|i: int| 0 <= i < self.slots@.len() ==> self.occupied(i) == other.occupied(i),
        ensures
            self.spec_prices(descending) == other.spec_prices(descending),
    {
        self.lemma_same_prices_asc(other, self.slots@.len() as int);
        self.lemma_same_prices_desc(other, 0);
    }

    /// The listed prices are the prices of the levels that hold orders, each once.
    pub proof fn lemma_spec_prices(self, descending: bool)
        requires
            self.wf(),
        ensures
            forall|p: i64| #[trigger]
                self.spec_prices(descending).contains(p) <==> (self@.contains_key(p) && self@[p].count != 0),
            self.spec_prices(descending).no_duplicates(),
    {
        if self.initialized {
            if descending {
                self.lemma_prices_desc(0);
            } else {
                self.lemma_prices_asc(self.slots@.len() as int);
            }
            assert forall|p: i64| #[trigger]
                self.spec_prices(descending).contains(p) <==> (self@.contains_key(p) && self@[p].count
                    != 0) by {
                if self.spec_price_to_idx(p) is Some {
                    self.lemma_price_of_idx(p);
                }
                assert(self.has_orders_in(p, 0, self.slots@.len() as int) <==> (self@.contains_key(p)
                    && self@[p].count != 0));
            }
        } else {
            self.lemma_unset_lists_nothing(0);
            self.lemma_unset_lists_nothing(self.slots@.len() as int);
        }
    }

    /// A grid that was never centred lists no price.
    proof fn lemma_unset_lists_nothing(self, n: int)
        requires
            self.wf(),
            !self.initialized,
        ensures
            self.prices_desc_from(n) == Seq::<i64>::empty(),
            self.prices_asc_upto(n) == Seq::<i64>::empty(),
        decreases self.slots@.len() - n, n,
    {
        if 0 <= n < self.slots@.len() {
            self.lemma_unset_lists_nothing(n + 1);
        }
        if 0 < n <= self.slots@.len() {
            self.lemma_unset_lists_nothing_asc(n - 1);
        }
    }

    proof fn lemma_unset_lists_nothing_asc(self, n: int)
        requires
            self.wf(),
            !self.initialized,
        ensures
            self.prices_asc_upto(n) == Seq::<i64>::empty(),
        decreases n,
    {
        if 0 < n <= self.slots@.len() {
            self.lemma_unset_lists_nothing_asc(n - 1);
        }
    }

    /// An empty grid of `span` slots that is centred by the first price stored.
    pub fn new(tick: i64, span: usize) -> (g: Self)
        requires
            tick >= 1,
        ensures
            g.wf(),
            !g.initialized,
            g.tick == tick,
            g.slots@.len() == span,
            g@ == Map::<i64, Level>::empty(),
    {
        let mut v: Vec<Option<Level>> = Vec::new();
        let mut i: usize = 0;
        while i < span
            invariant
                i <= span,
                v@.len() == i,
                forall|j: int| 0 <= j < i ==> v@[j] is None,
            decreases span - i,
        {
            v.push(None);
            i += 1;
        }
        let g = PriceGrid { initialized: false, start_price: 0, tick, slots: v };
        assert(g@ =~= Map::<i64, Level>::empty());
        g
    }

    /// Centres the empty grid on `price`.
    pub fn init_around(&mut self, price: i64)
        requires
            old(self).wf(),
            !old(self).initialized,
        ensures
            final(self).wf(),
            final(self).initialized,
            final(self).tick == old(self).tick,
            final(self).slots == old(self).slots,
            final(self).start_price == centred_start(price, old(self).tick, old(self).slots@.len() as int),
            final(self)@ == Map::<i64, Level>::empty(),
    {
        let half: i128 = (self.slots.len() / 2) as i128;
        let rem: i128 = match price.checked_rem_euclid(self.tick) {
            Some(r) => r as i128,
            None => 0,
        };
        let t: i128 = self.tick as i128;
        assert(0 <= half * t <= 0x4000_0000_0000_0000_0000_0000_0000_0000) by (nonlinear_arith)
            requires
                0 <= half <= 0x7fff_ffff_ffff_ffff,
                0 < t <= 0x7fff_ffff_ffff_ffff,
        ;
        proof {
            let r = (price as int) % (self.tick as int);
            lemma_fundamental_div_mod(price as int, self.tick as int);
            vstd::arithmetic::div_mod::lemma_mod_bound(price as int, self.tick as int);
        }
        let s: i128 = price as i128 - rem - half * t;
        self.start_price = if s < i64::MIN as i128 {
            i64::MIN
        } else {
            s as i64
        };
        self.initialized = true;
        assert(self@ =~= Map::<i64, Level>::empty());
    }

    /// The slot of `price`, if the grid has one for it.
    pub fn price_to_idx(&self, price: i64) -> (r: Option<usize>)
        requires
            self.tick >= 1,
        ensures
            match r {
                Some(i) => self.spec_price_to_idx(price) == Some(i as int),
                None => self.spec_price_to_idx(price) is None,
            },
    {
        if !self.initialized {
            return None;
        }
        let d: i128 = price as i128 - self.start_price as i128;
        if d < 0 {
            return None;
        }
        let t: i128 = self.tick as i128;
        if d % t != 0 {
            return None;
        }
        let q: i128 = d / t;
        assert(q >= 0) by (nonlinear_arith)
            requires
                d >= 0,
                t > 0,
                q == d / t,
        ;
        if q < self.slots.len() as i128 {
            Some(q as usize)
        } else {
            None
        }
    }

    /// The level at `price`, if the grid holds one.
    pub fn get(&self, price: i64) -> (r: Option<Level>)
        requires
            self.wf(),
        ensures
            r == lookup(self@, price),
    {
        match self.price_to_idx(price) {
            Some(i) => self.slots[i],
            None => None,
        }
    }

    /// Stores `level` at `price` if the grid has a slot for that price,
    /// centring the grid first if this is the first price it sees. Returns
    /// whether the level was stored.
    pub fn put(&mut self, price: i64, level: Level) -> (stored: bool)
        requires
            old(self).wf(),
        ensures
            final(self).wf(),
            final(self).initialized,
            final(self).tick == old(self).tick,
            final(self).slots@.len() == old(self).slots@.len(),
            old(self).initialized ==> final(self).start_price == old(self).start_price,
            !old(self).initialized ==> final(self).start_price == centred_start(
                price,
                old(self).tick,
                old(self).slots@.len() as int,
            ),
            stored == final(self).spec_price_to_idx(price) is Some,
            stored ==> final(self)@ == old(self)@.insert(price, level),
            !stored ==> final(self)@ == old(self)@,
    {
        if !self.initialized {
            assert(self@ =~= Map::<i64, Level>::empty());
            self.init_around(price);
        }
        let ghost mid = *self;
        assert(mid@ =~= old(self)@);
        match self.price_to_idx(price) {
            Some(i) => {
                self.slots.set(i, Some(level));
                proof {
                    mid.lemma_price_of_idx(price);
                    assert forall|p: i64| self.spec_price_to_idx(p) == mid.spec_price_to_idx(p) by {}
                    assert forall|p: i64| self.spec_price_to_idx(p) == Some(i as int) implies p == price by {
                        self.lemma_price_of_idx(p);
                    }
                    assert(self@ =~= mid@.insert(price, level));
                }
                true
            },
            None => false,
        }
    }

    /// Clears the slot of `price` if it holds a level without orders.
    /// Returns whether it did.
    pub fn remove(&mut self, price: i64) -> (removed: bool)
        requires
            old(self).wf(),
        ensures
            final(self).wf(),
            final(self).initialized == old(self).initialized,
            final(self).tick == old(self).tick,
            final(self).start_price == old(self).start_price,
            final(self).slots@.len() == old(self).slots@.len(),
            removed == (old(self)@.contains_key(price) && old(self)@[price].count == 0),
            removed ==> final(self)@ == old(self)@.remove(price),
            !removed ==> final(self)@ == old(self)@,
    {
        match self.price_to_idx(price) {
            Some(i) => {
                let empty = match self.slots[i] {
                    Some(l) => l.count == 0,
                    None => false,
                };
                if empty {
                    self.slots.set(i, None);
                    proof {
                        assert forall|p: i64| self.spec_price_to_idx(p) == old(self).spec_price_to_idx(p) by {}
                        assert forall|p: i64| self.spec_price_to_idx(p) == Some(i as int) implies p
                            == price by {
                            self.lemma_price_of_idx(p);
                            old(self).lemma_price_of_idx(price);
                        }
                        assert(self@ =~= old(self)@.remove(price));
                    }
                    return true;
                }
                false
            },
            None => false,
        }
    }

    /// The price of slot `i`.
    fn slot_price(&self, i: usize) -> (p: i64)
        requires
            self.tick >= 1,
            i < self.slots@.len(),
            self.price_at(i as int) <= i64::MAX,
        ensures
            p == self.price_at(i as int),
    {
        let t: i128 = self.tick as i128;
        let k: i128 = i as i128;
        assert(0 <= k * t <= 0x8000_0000_0000_0000_0000_0000_0000_0000) by (nonlinear_arith)
            requires
                0 <= k <= 0xffff_ffff_ffff_ffff,
                0 < t <= 0x7fff_ffff_ffff_ffff,
        ;
        let p: i128 = self.start_price as i128 + k * t;
        p as i64
    }

    /// The highest price with orders in the grid and the quantity resting there.
    pub fn best_bid_candidate(&self) -> (r: Option<(i64, i64)>)
        requires
            self.wf(),
        ensures
            match r {
                Some(e) => self@.contains_key(e.0) && self@[e.0].count != 0 && e.1 == self@[e.0].total_qty
                    && forall|p: i64| self@.contains_key(p) && self@[p].count != 0 ==> p <= e.0,
                None => forall|p: i64| self@.contains_key(p) ==> self@[p].count == 0,
            },
    {
        let mut i: usize = self.slots.len();
        while i > 0
            invariant
                self.wf(),
                i <= self.slots@.len(),
                forall|j: int| i <= j < self.slots@.len() ==> !self.occupied(j),
            decreases i,
        {
            i -= 1;
            match self.slots[i] {
                Some(l) => {
                    if l.count != 0 {
                        let p = self.slot_price(i);
                        proof {
                            self.lemma_idx_of_price_at(i as int);
                            assert forall|q: i64| self@.contains_key(q) && self@[q].count != 0 implies q
                                <= p by {
                                self.lemma_price_of_idx(q);
                                let j = self.spec_price_to_idx(q).unwrap();
                                assert(self.occupied(j));
                                if j < i {
                                    self.lemma_price_monotone(j, i as int);
                                }
                            }
                        }
                        return Some((p, l.total_qty));
                    }
                },
                None => {},
            }
        }
        proof {
            assert forall|q: i64| self@.contains_key(q) implies self@[q].count == 0 by {
                self.lemma_price_of_idx(q);
                assert(!self.occupied(self.spec_price_to_idx(q).unwrap()));
            }
        }
        None
    }

    /// The lowest price with orders in the grid and the quantity resting there.
    pub fn best_ask_candidate(&self) -> (r: Option<(i64, i64)>)
        requires
            self.wf(),
        ensures
            match r {
                Some(e) => self@.contains_key(e.0) && self@[e.0].count != 0 && e.1 == self@[e.0].total_qty
                    && forall|p: i64| self@.contains_key(p) && self@[p].count != 0 ==> e.0 <= p,
                None => forall|p: i64| self@.contains_key(p) ==> self@[p].count == 0,
            },
    {
        let mut i: usize = 0;
        while i < self.slots.len()
            invariant
                self.wf(),
                i <= self.slots@.len(),
                forall|j: int| 0 <= j < i ==> !self.occupied(j),
            decreases self.slots@.len() - i,
        {
            match self.slots[i] {
                Some(l) => {
                    if l.count != 0 {
                        let p = self.slot_price(i);
                        proof {
                            self.lemma_idx_of_price_at(i as int);
                            assert forall|q: i64| self@.contains_key(q) && self@[q].count != 0 implies p
                                <= q by {
                                self.lemma_price_of_idx(q);
                                let j = self.spec_price_to_idx(q).unwrap();
                                assert(self.occupied(j));
                                if j > i {
                                    self.lemma_price_monotone(i as int, j);
                                }
                            }
                        }
                        return Some((p, l.total_qty));
                    }
                },
                None => {},
            }
            i += 1;
        }
        proof {
            assert forall|q: i64| self@.contains_key(q) implies self@[q].count == 0 by {
                self.lemma_price_of_idx(q);
                assert(!self.occupied(self.spec_price_to_idx(q).unwrap()));
            }
        }
        None
    }

    /// The prices of the levels with orders, best first: highest first when
    /// `descending`, else lowest first.
    pub fn prices(&self, descending: bool) -> (r: Vec<i64>)
        requires
            self.wf(),
        ensures
            r@ == self.spec_prices(descending),
    {
        let mut out: Vec<i64> = Vec::new();
        let n = self.slots.len();
        if descending {
            let mut i: usize = n;
            while i > 0
                invariant
                    self.wf(),
                    n == self.slots@.len(),
                    i <= n,
                    out@ == self.prices_desc_from(i as int),
                decreases i,
            {
                i -= 1;
                match self.slots[i] {
                    Some(l) => {
                        if l.count != 0 {
                            let p = self.slot_price(i);
                            out.push(p);
                        }
                    },
                    None => {},
                }
            }
        } else {
            let mut i: usize = 0;
            while i < n
                invariant
                    self.wf(),
                    n == self.slots@.len(),
                    i <= n,
                    out@ == self.prices_asc_upto(i as int),
                decreases n - i,
            {
                match self.slots[i] {
                    Some(l) => {
                        if l.count != 0 {
                            let p = self.slot_price(i);
                            out.push(p);
                        }
                    },
                    None => {},
                }
                i += 1;
            }
        }
        out
    }
}

} // verus!
