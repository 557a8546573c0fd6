//! One side of an instrument's book: the tick grid and, for the prices the
//! grid cannot address, the ordered overflow store.
use vstd::prelude::*;
use crate::grid::{GridFrame, PriceGrid};
use crate::level::{ascending_keys, lookup, Level, Overflow};

verus! {

/// The levels of one side by price.
pub struct SideBook {
    pub grid: PriceGrid,
    pub overflow: Overflow,
}

/// `p` is the best price of `m`: the highest when `descending`, else the lowest.
pub open spec fn is_best(m: Map<i64, Level>, descending: bool, p: i64) -> bool {
    &&& m.contains_key(p)
    &&& forall|q: i64| #[trigger]
        m.contains_key(q) ==> if descending {
            q <= p
        } else {
            p <= q
        }
}

/// `s` read from its far end when `descending`, else as it is.
pub open spec fn oriented(s: Seq<i64>, descending: bool) -> Seq<i64> {
    if descending {
        s.reverse()
    } else {
        s
    }
}

/// `s` rises: each price is higher than the one before it.
pub open spec fn rises(s: Seq<i64>) -> bool {
    forall|i: int, j: int| 0 <= i < j < s.len() ==> s[i] < s[j]
}

/// `prices` lists the prices of `m` by price, best first: from the highest
/// down when `descending`, else from the lowest up.
pub open spec fn is_price_order(m: Map<i64, Level>, descending: bool, prices: Seq<i64>) -> bool {
    ascending_keys(m, oriented(prices, descending))
}

/// The prices of `m` by price, best first.
pub open spec fn price_order(m: Map<i64, Level>, descending: bool) -> Seq<i64> {
    choose|prices: Seq<i64>| is_price_order(m, descending, prices)
}

/// There is only one price order.
pub proof fn lemma_price_order_unique(m: Map<i64, Level>, descending: bool, prices: Seq<i64>)
    requires
        is_price_order(m, descending, prices),
    ensures
        prices == price_order(m, descending),
{
    let other = price_order(m, descending);
    let a = oriented(prices, descending);
    let b = oriented(other, descending);
    crate::level::lemma_ascending_unique(m, a, b);
    if descending {
        assert(prices =~= a.reverse());
        assert(other =~= b.reverse());
    }
}

/// A price order lists every price of the map once, each price before all
/// worse prices.
pub proof fn lemma_price_order(m: Map<i64, Level>, descending: bool, prices: Seq<i64>)
    requires
        is_price_order(m, descending, prices),
    ensures
        prices.no_duplicates(),
        forall|p: i64| #[trigger] prices.contains(p) <==> m.contains_key(p),
        forall|i: int, j: int|
            0 <= i < j < prices.len() ==> if descending {
                prices[i] > prices[j]
            } else {
                prices[i] < prices[j]
            },
{
    let o = oriented(prices, descending);
    let n = prices.len() as int;
    assert forall|i: int, j: int| 0 <= i < j < n implies if descending {
        prices[i] > prices[j]
    } else {
        prices[i] < prices[j]
    } by {
        if descending {
            assert(o[n - 1 - j] < o[n - 1 - i]);
        } else {
            assert(o[i] < o[j]);
        }
    }
    assert forall|p: i64| #[trigger] prices.contains(p) <==> m.contains_key(p) by {
        if prices.contains(p) {
            let k = choose|k: int| 0 <= k < n && prices[k] == p;
            if descending {
                assert(o[n - 1 - k] == p);
            }
            assert(o.contains(p));
            assert(o.to_set().contains(p));
        }
        if m.contains_key(p) {
            assert(o.to_set().contains(p));
            let k = choose|k: int| 0 <= k < o.len() && o[k] == p;
            if descending {
                assert(prices[n - 1 - k] == p);
            } else {
                assert(prices[k] == p);
            }
        }
    }
}

/// Merges two rising lists into one.
pub fn merge_rising(a: &Vec<i64>, b: &Vec<i64>) -> (r: Vec<i64>)
    requires
        rises(a@),
        rises(b@),
    ensures
        rises(r@),
        forall|p: i64| #[trigger] r@.contains(p) <==> a@.contains(p) || b@.contains(p),
{
    let mut out: Vec<i64> = Vec::new();
    let mut i: usize = 0;
    let mut j: usize = 0;
    while i < a.len() || j < b.len()
        invariant
            rises(a@),
            rises(b@),
            rises(out@),
            i <= a@.len(),
            j <= b@.len(),
            forall|k: int| 0 <= k < out@.len() && i < a@.len() ==> (#[trigger] out@[k]) < a@[i as int],
            forall|k: int| 0 <= k < out@.len() && j < b@.len() ==> (#[trigger] out@[k]) < b@[j as int],
            forall|k: int| 0 <= k < out@.len() ==> a@.contains(#[trigger] out@[k]) || b@.contains(out@[k]),
            forall|k: int| 0 <= k < i ==> out@.contains(#[trigger] a@[k]),
            forall|k: int| 0 <= k < j ==> out@.contains(#[trigger] b@[k]),
        decreases a@.len() - i + b@.len() - j,
    {
        let ghost prev = out@;
        let take_a = i < a.len() && (j >= b.len() || a[i] <= b[j]);
        let x: i64 = if take_a {
            a[i]
        } else {
            b[j]
        };
        out.push(x);
        let ghost i0 = i;
        let ghost j0 = j;
        if i < a.len() && a[i] == x {
            i += 1;
        }
        if j < b.len() && b[j] == x {
            j += 1;
        }
        proof {
            assert(out@[prev.len() as int] == x);
            assert forall|k: int| 0 <= k < i implies out@.contains(#[trigger] a@[k]) by {
                if k < i0 {
                    assert(prev.contains(a@[k]));
                    let w = choose|w: int| 0 <= w < prev.len() && prev[w] == a@[k];
                    assert(out@[w] == a@[k]);
                }
            }
            assert forall|k: int| 0 <= k < j implies out@.contains(#[trigger] b@[k]) by {
                if k < j0 {
                    assert(prev.contains(b@[k]));
                    let w = choose|w: int| 0 <= w < prev.len() && prev[w] == b@[k];
                    assert(out@[w] == b@[k]);
                }
            }
            assert forall|k: int| 0 <= k < out@.len() implies a@.contains(#[trigger] out@[k]) || b@.contains(
                out@[k],
            ) by {
                if k < prev.len() {
                    assert(out@[k] == prev[k]);
                } else if take_a {
                    assert(a@[i0 as int] == x);
                } else {
                    assert(b@[j0 as int] == x);
                }
            }
            assert forall|k: int, l: int| 0 <= k < l < out@.len() implies out@[k] < out@[l] by {
                if l < prev.len() {
                    assert(prev[k] < prev[l]);
                } else {
                    assert(out@[k] == prev[k]);
                }
            }
        }
    }
    proof {
        assert forall|p: i64| #[trigger] out@.contains(p) <==> a@.contains(p) || b@.contains(p) by {
            if out@.contains(p) {
                let k = choose|k: int| 0 <= k < out@.len() && out@[k] == p;
                assert(a@.contains(out@[k]) || b@.contains(out@[k]));
            }
            if a@.contains(p) {
                let k = choose|k: int| 0 <= k < a@.len() && a@[k] == p;
                assert(out@.contains(a@[k]));
            }
            if b@.contains(p) {
                let k = choose|k: int| 0 <= k < b@.len() && b@[k] == p;
                assert(out@.contains(b@[k]));
            }
        }
    }
    out
}

impl SideBook {
    /// The grid is well-formed, no price is held both in the grid and in the
    /// overflow store, and the overflow store is only used once the grid is centred.
    pub open spec fn wf(self) -> bool {
        &&& self.grid.wf()
        &&& forall|p: i64| #[trigger]
            self.overflow@.contains_key(p) ==> self.grid.spec_price_to_idx(p) is None
        &&& !self.grid.initialized ==> forall|p: i64| !self.overflow@.contains_key(p)
    }

    /// The levels of the side by price.
    pub open spec fn view(self) -> Map<i64, Level> {
        Map::new(
            |p: i64| self.grid@.contains_key(p) || self.overflow@.contains_key(p),
            |p: i64|
                if self.grid@.contains_key(p) {
                    self.grid@[p]
                } else {
                    self.overflow@[p]
                },
        )
    }

    /// Every level holds at least one order.
    pub open spec fn all_nonempty(self) -> bool {
        forall|p: i64| #[trigger] self@.contains_key(p) ==> self@[p].count != 0
    }

    /// `prices` lists the levels in the order of a walk through the side:
    /// first the occupied grid levels, best first, then the overflow levels,
    /// best first.
    pub open spec fn is_level_order(self, descending: bool, prices: Seq<i64>) -> bool {
        let g = self.grid.spec_prices(descending);
        &&& prices.len() >= g.len()
        &&& prices.take(g.len() as int) == g
        &&& ascending_keys(self.overflow@, oriented(prices.skip(g.len() as int), descending))
    }

    /// The prices of the levels in the order of a walk through the side.
    pub open spec fn level_order(self, descending: bool) -> Seq<i64> {
        choose|prices: Seq<i64>| self.is_level_order(descending, prices)
    }

    /// There is only one walk order.
    pub proof fn lemma_level_order_unique(self, descending: bool, prices: Seq<i64>)
        requires
            self.is_level_order(descending, prices),
        ensures
            prices == self.level_order(descending),
    {
        let other = self.level_order(descending);
        let g = self.grid.spec_prices(descending);
        let n = g.len() as int;
        let a = oriented(prices.skip(n), descending);
        let b = oriented(other.skip(n), descending);
        crate::level::lemma_ascending_unique(self.overflow@, a, b);
        if descending {
            assert(prices.skip(n) =~= a.reverse());
            assert(other.skip(n) =~= b.reverse());
        }
        assert(prices =~= prices.take(n) + prices.skip(n));
        assert(other =~= other.take(n) + other.skip(n));
    }

    /// A walk through a side without empty levels visits every level once.
    pub proof fn lemma_level_order(self, descending: bool, prices: Seq<i64>)
        requires
            self.wf(),
            self.all_nonempty(),
            self.is_level_order(descending, prices),
        ensures
            prices.no_duplicates(),
            forall|p: i64| #[trigger] prices.contains(p) <==> self@.contains_key(p),
    {
        let g = self.grid.spec_prices(descending);
        let n = g.len() as int;
        let o = prices.skip(n);
        let oo = oriented(o, descending);
        self.grid.lemma_spec_prices(descending);
        assert(prices =~= g + o);
        assert forall|p: i64| o.contains(p) <==> self.overflow@.contains_key(p) by {
            if o.contains(p) {
                let k = choose|k: int| 0 <= k < o.len() && o[k] == p;
                if descending {
                    assert(oo[o.len() - 1 - k] == p);
                }
                assert(oo.contains(p));
                assert(oo.to_set().contains(p));
            }
            if self.overflow@.contains_key(p) {
                assert(oo.to_set().contains(p));
                let k = choose|k: int| 0 <= k < oo.len() && oo[k] == p;
                if descending {
                    assert(o[o.len() - 1 - k] == p);
                } else {
                    assert(o[k] == p);
                }
            }
        }
        assert forall|p: i64| #[trigger] prices.contains(p) <==> self@.contains_key(p) by {
            if prices.contains(p) {
                let k = choose|k: int| 0 <= k < prices.len() && prices[k] == p;
                if k < n {
                    assert(g[k] == p);
                    assert(g.contains(p));
                } else {
                    assert(o[k - n] == p);
                    assert(o.contains(p));
                }
            }
            if self@.contains_key(p) {
                if self.grid@.contains_key(p) {
                    assert(self@[p].count != 0);
                    assert(g.contains(p));
                    let k = choose|k: int| 0 <= k < g.len() && g[k] == p;
                    assert(prices[k] == p);
                } else {
                    assert(o.contains(p));
                    let k = choose|k: int| 0 <= k < o.len() && o[k] == p;
                    assert(prices[n + k] == p);
                }
            }
        }
        assert forall|a: int, b: int| 0 <= a < prices.len() && 0 <= b < prices.len() && a != b implies prices[a]
            != prices[b] by {
            if a < n && b < n {
                assert(g[a] != g[b]);
            } else if a >= n && b >= n {
                let x = a - n;
                let y = b - n;
                if descending {
                    let xx = o.len() - 1 - x;
                    let yy = o.len() - 1 - y;
                    assert(oo[xx] == o[x] && oo[yy] == o[y]);
                    if xx < yy {
                        assert(oo[xx] < oo[yy]);
                    } else {
                        assert(oo[yy] < oo[xx]);
                    }
                } else {
                    if x < y {
                        assert(oo[x] < oo[y]);
                    } else {
                        assert(oo[y] < oo[x]);
                    }
                }
            } else {
                let (ga, ob) = if a < n {
                    (a, b - n)
                } else {
                    (b, a - n)
                };
                assert(g.contains(g[ga]));
                assert(o.contains(o[ob]));
                assert(self.grid@.contains_key(g[ga]));
                assert(self.overflow@.contains_key(o[ob]));
            }
        }
    }

    /// A slot that holds orders in this side holds orders in a side with the
    /// same levels whose grid lies alike.
    proof fn lemma_slot_by_frame(self, other: SideBook, i: int)
        requires
            self.wf(),
            other.wf(),
            other.all_nonempty(),
            self.grid.frame() == other.grid.frame(),
            self@.dom() == other@.dom(),
            0 <= i < self.grid.slots@.len(),
            self.grid.occupied(i),
        ensures
            other.grid.occupied(i),
    {
        let p = self.grid.price_at(i) as i64;
        self.grid.lemma_idx_of_price_at(i);
        assert(self.grid@.contains_key(p));
        assert(self@.dom().contains(p));
        assert(other@.contains_key(p));
        assert(other.grid.spec_price_to_idx(p) == Some(i));
        assert(other.grid@.contains_key(p));
        assert(other@[p].count != 0);
    }

    /// The walk through a side is fixed by its levels and by where its grid
    /// lies: sides with levels at the same prices whose grids lie alike are
    /// walked in the same order.
    pub proof fn lemma_walk_by_frame(self, other: SideBook, descending: bool)
        requires
            self.wf(),
            other.wf(),
            self.all_nonempty(),
            other.all_nonempty(),
            self.grid.frame() == other.grid.frame(),
            self@.dom() == other@.dom(),
            self.is_level_order(descending, self.level_order(descending)),
        ensures
            self.level_order(descending) == other.level_order(descending),
    {
        assert forall|i: int| 0 <= i < self.grid.slots@.len() implies self.grid.occupied(i)
            == other.grid.occupied(i) by {
            if self.grid.occupied(i) {
                self.lemma_slot_by_frame(other, i);
            }
            if other.grid.occupied(i) {
                other.lemma_slot_by_frame(self, i);
            }
        }
        self.grid.lemma_same_prices(other.grid, descending);
        assert forall|p: i64| self.overflow@.contains_key(p) <==> other.overflow@.contains_key(p) by {
            self.lemma_kept_by_frame(p);
            other.lemma_kept_by_frame(p);
            assert(self@.dom().contains(p) == other@.dom().contains(p));
            assert(self.grid.spec_price_to_idx(p) == other.grid.spec_price_to_idx(p));
        }
        assert(self.overflow@.dom() =~= other.overflow@.dom());
        other.lemma_level_order_unique(descending, self.level_order(descending));
    }

    /// An empty side whose grid has `span` slots of width `tick`.
    pub fn new(tick: i64, span: usize) -> (s: Self)
        requires
            tick >= 1,
        ensures
            s.wf(),
            s@ == Map::<i64, Level>::empty(),
            s.is_unset(tick, span),
    {
        let s = SideBook { grid: PriceGrid::new(tick, span), overflow: Overflow::new() };
        assert(s@ =~= Map::<i64, Level>::empty());
        s
    }

    /// The grid has `span` slots of width `tick` and waits for the first
    /// price to centre it, and no level has spilled past it.
    pub open spec fn is_unset(self, tick: i64, span: usize) -> bool {
        &&& self.grid.frame() == GridFrame::unset(tick, span as nat)
        &&& self.overflow@ == Map::<i64, Level>::empty()
    }

    /// The level at `price`, if there is one.
    pub fn get(&self, price: i64) -> (r: Option<Level>)
        requires
            self.wf(),
        ensures
            r == lookup(self@, price),
    {
        match self.grid.get(price) {
            Some(l) => Some(l),
            None => self.overflow.get(price),
        }
    }

    /// Whether the grid has a slot for `price`.
    pub open spec fn in_grid(self, price: i64) -> bool {
        self.grid.spec_price_to_idx(price) is Some
    }

    /// Where a level is kept follows from where the grid lies: the grid
    /// keeps the levels it has a slot for, the overflow store the others.
    pub proof fn lemma_kept_by_frame(self, price: i64)
        requires
            self.wf(),
        ensures
            self.grid@.contains_key(price) <==> self@.contains_key(price) && self.in_grid(price),
            self.overflow@.contains_key(price) <==> self@.contains_key(price) && !self.in_grid(price),
    {
    }

    /// Stores `level` at `price`. The first price that a side sees centres
    /// its grid; after that the grid stays where it is. The level is kept in
    /// the grid if the grid has a slot for the price, else in the overflow
    /// store.
    pub fn put(&mut self, price: i64, level: Level)
        requires
            old(self).wf(),
        ensures
            final(self).wf(),
            final(self)@ == old(self)@.insert(price, level),
            final(self).grid.frame() == old(self).grid.frame().after_put(price),
            final(self).grid@ == if final(self).in_grid(price) {
                old(self).grid@.insert(price, level)
            } else {
                old(self).grid@
            },
            final(self).overflow@ == if final(self).in_grid(price) {
                old(self).overflow@
            } else {
                old(self).overflow@.insert(price, level)
            },
    {
        let ghost g0 = self.grid;
        let stored = self.grid.put(price, level);
        proof {
            if g0.initialized {
                assert forall|p: i64| self.grid.spec_price_to_idx(p) == g0.spec_price_to_idx(p) by {}
            }
        }
        if !stored {
            self.overflow.insert(price, level);
        }
        assert(self@ =~= old(self)@.insert(price, level));
    }

    /// Removes the level at `price` if it holds no order. Returns whether it did.
    pub fn remove_if_empty(&mut self, price: i64) -> (removed: bool)
        requires
            old(self).wf(),
        ensures
            final(self).wf(),
            removed == (old(self)@.contains_key(price) && old(self)@[price].count == 0),
            removed ==> final(self)@ == old(self)@.remove(price),
            !removed ==> final(self)@ == old(self)@,
            final(self).grid.frame() == old(self).grid.frame(),
    {
        let ghost g0 = self.grid;
        if self.grid.remove(price) {
            proof {
                assert forall|p: i64| self.grid.spec_price_to_idx(p) == g0.spec_price_to_idx(p) by {}
                assert(self@ =~= old(self)@.remove(price));
            }
            return true;
        }
        proof {
            assert forall|p: i64| self.grid.spec_price_to_idx(p) == g0.spec_price_to_idx(p) by {}
        }
        match self.overflow.get(price) {
            Some(l) => {
                if l.is_empty() {
                    self.overflow.remove(price);
                    assert(self@ =~= old(self)@.remove(price));
                    return true;
                }
                assert(self@ =~= old(self)@);
                false
            },
            None => {
                assert(self@ =~= old(self)@);
                false
            },
        }
    }

    /// The best price of the side and the quantity resting there: the better
    /// of the grid's best level and the overflow store's best level.
    pub fn best(&self, descending: bool) -> (r: Option<(i64, i64)>)
        requires
            self.wf(),
            self.all_nonempty(),
        ensures
            match r {
                Some(e) => is_best(self@, descending, e.0) && e.1 == self@[e.0].total_qty,
                None => forall|p: i64| !self@.contains_key(p),
            },
    {
        let grid_cand = if descending {
            self.grid.best_bid_candidate()
        } else {
            self.grid.best_ask_candidate()
        };
        let of_cand = match if descending {
            self.overflow.last()
        } else {
            self.overflow.first()
        } {
            Some(e) => Some((e.0, e.1.total_qty)),
            None => None,
        };
        proof {
            assert forall|p: i64| self.grid@.contains_key(p) implies self.grid@[p].count != 0 by {
                assert(self@.contains_key(p));
            }
        }
        match (grid_cand, of_cand) {
            (Some(g), Some(o)) => {
                if descending {
                    if g.0 >= o.0 {
                        Some(g)
                    } else {
                        Some(o)
                    }
                } else {
                    if g.0 <= o.0 {
                        Some(g)
                    } else {
                        Some(o)
                    }
                }
            },
            (Some(g), None) => Some(g),
            (None, Some(o)) => Some(o),
            (None, None) => None,
        }
    }

    /// The prices of the levels by price, best first, whether a level is
    /// kept in the grid or in the overflow store.
    pub fn sorted_prices(&self, descending: bool) -> (r: Vec<i64>)
        requires
            self.wf(),
            self.all_nonempty(),
        ensures
            is_price_order(self@, descending, r@),
            r@ == price_order(self@, descending),
    {
        let g = self.grid.prices(false);
        let ov = self.overflow.prices();
        proof {
            self.grid.lemma_spec_prices(false);
            if self.grid.initialized {
                self.grid.lemma_prices_asc_rise(self.grid.slots@.len() as int);
            } else if g@.len() > 0 {
                assert(g@.contains(g@[0]));
                assert(self.grid@.contains_key(g@[0]));
            }
        }
        let up = merge_rising(&g, &ov);
        proof {
            assert forall|p: i64| up@.to_set().contains(p) <==> self@.dom().contains(p) by {
                assert(up@.contains(p) <==> g@.contains(p) || ov@.contains(p));
                assert(ov@.to_set().contains(p) <==> self.overflow@.contains_key(p));
                if self.grid@.contains_key(p) {
                    assert(self@.contains_key(p));
                    assert(self@[p].count != 0);
                }
            }
            assert(up@.to_set() =~= self@.dom());
        }
        if !descending {
            proof {
                lemma_price_order_unique(self@, descending, up@);
            }
            return up;
        }
        let mut out: Vec<i64> = Vec::new();
        let mut k: usize = up.len();
        assert(out@ =~= up@.skip(k as int).reverse());
        while k > 0
            invariant
                k <= up@.len(),
                out@ == up@.skip(k as int).reverse(),
            decreases k,
        {
            k -= 1;
            out.push(up[k]);
            assert(out@ =~= up@.skip(k as int).reverse());
        }
        proof {
            assert(up@.skip(0) =~= up@);
            assert(out@.reverse() =~= up@);
            lemma_price_order_unique(self@, descending, out@);
        }
        out
    }

    /// The prices of the levels in the order of a walk through the side.
    pub fn prices(&self, descending: bool) -> (r: Vec<i64>)
        requires
            self.wf(),
        ensures
            self.is_level_order(descending, r@),
            r@ == self.level_order(descending),
    {
        let mut out = self.grid.prices(descending);
        let ghost g = out@;
        let ov = self.overflow.prices();
        if descending {
            let mut k: usize = ov.len();
            assert(out@ =~= g + ov@.skip(k as int).reverse());
            while k > 0
                invariant
                    k <= ov@.len(),
                    out@ == g + ov@.skip(k as int).reverse(),
                decreases k,
            {
                k -= 1;
                out.push(ov[k]);
                assert(out@ =~= g + ov@.skip(k as int).reverse());
            }
            assert(out@.take(g.len() as int) =~= g);
            assert(oriented(out@.skip(g.len() as int), descending) =~= ov@);
        } else {
            let mut k: usize = 0;
            assert(out@ =~= g + ov@.take(k as int));
            while k < ov.len()
                invariant
                    k <= ov@.len(),
                    out@ == g + ov@.take(k as int),
                decreases ov@.len() - k,
            {
                out.push(ov[k]);
                k += 1;
                assert(out@ =~= g + ov@.take(k as int));
            }
            assert(out@.take(g.len() as int) =~= g);
            assert(out@.skip(g.len() as int) =~= ov@);
        }
        proof {
            self.lemma_level_order_unique(descending, out@);
        }
        out
    }
}

} // verus!
