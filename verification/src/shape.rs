//! The linked structure of an instrument's book as a mathematical value,
//! and the proofs that adding, resizing and removing an order keep it sound.
//!
//! Orders live in a node store under stable handles. The orders of one price
//! level form a doubly linked FIFO chain through the store; the level records
//! the ends of the chain, the number of orders and the sum of their
//! quantities.
use vstd::prelude::*;
use crate::level::Level;
use crate::parser::Side;

verus! {

/// An order in the node store.
#[derive(Clone, Copy, Debug, PartialEq, Eq, Structural)]
pub struct Node {
    pub price: i64,
    pub qty: i64,
    pub side: Side,
    /// The order before this one at its price level.
    pub prev: Option<usize>,
    /// The order after this one at its price level.
    pub next: Option<usize>,
}

/// The key of a price level: side and price.
pub type LevelKey = (Side, i64);

/// Node store, FIFO chains and levels of one instrument.
pub struct Shape {
    pub nodes: Map<usize, Node>,
    /// The handles of each level's orders, oldest first.
    pub fifo: Map<LevelKey, Seq<usize>>,
    pub bids: Map<i64, Level>,
    pub asks: Map<i64, Level>,
}

/// The sum of the quantities of the orders `c`.
pub open spec fn sum_qty(nodes: Map<usize, Node>, c: Seq<usize>) -> int
    decreases c.len(),
{
    if c.len() == 0 {
        0
    } else {
        sum_qty(nodes, c.drop_last()) + nodes[c.last()].qty
    }
}

/// The link that the order at position `i` of a chain holds to its predecessor.
pub open spec fn prev_in(c: Seq<usize>, i: int) -> Option<usize> {
    if i == 0 {
        None
    } else {
        Some(c[i - 1])
    }
}

/// The link that the order at position `i` of a chain holds to its successor.
pub open spec fn next_in(c: Seq<usize>, i: int) -> Option<usize> {
    if i == c.len() - 1 {
        None
    } else {
        Some(c[i + 1])
    }
}

/// The order at position `i` of the chain of level `k` is stored with the
/// level's side and price and is linked to its neighbours in the chain.
pub open spec fn linked(nodes: Map<usize, Node>, k: LevelKey, c: Seq<usize>, i: int) -> bool {
    &&& nodes.contains_key(c[i])
    &&& nodes[c[i]].side == k.0
    &&& nodes[c[i]].price == k.1
    &&& nodes[c[i]].prev == prev_in(c, i)
    &&& nodes[c[i]].next == next_in(c, i)
}

/// The chain `c` and the level `lvl` describe the same orders: the chain is
/// not empty and repeats no order, the level points at its ends, counts its
/// orders and sums their quantities, and the orders are linked in chain order.
pub open spec fn chain_ok(nodes: Map<usize, Node>, k: LevelKey, c: Seq<usize>, lvl: Level) -> bool {
    &&& c.len() > 0
    &&& c.no_duplicates()
    &&& lvl.head == Some(c[0])
    &&& lvl.tail == Some(c.last())
    &&& lvl.count == c.len()
    &&& lvl.total_qty == sum_qty(nodes, c)
    &&& forall|i: int| 0 <= i < c.len() ==> #[trigger] linked(nodes, k, c, i)
}

/// The store after order `h` was cut out of its chain: its neighbours are
/// linked to each other and the order is gone.
pub open spec fn unlink(nodes: Map<usize, Node>, h: usize) -> Map<usize, Node> {
    let n = nodes[h];
    let nodes1 = match n.prev {
        Some(p) => nodes.insert(p, Node { next: n.next, ..nodes[p] }),
        None => nodes,
    };
    let nodes2 = match n.next {
        Some(x) => nodes1.insert(x, Node { prev: n.prev, ..nodes1[x] }),
        None => nodes1,
    };
    nodes2.remove(h)
}

/// `n2` is `nodes` without the order at position `i0` of chain `c`, whose
/// neighbours in the chain are linked to each other; nothing else differs.
pub open spec fn unlinked_from(n2: Map<usize, Node>, nodes: Map<usize, Node>, c: Seq<usize>, i0: int) -> bool {
    &&& forall|y: usize| #[trigger] n2.contains_key(y) <==> (nodes.contains_key(y) && y != c[i0])
    &&& forall|y: usize| #[trigger]
        n2.contains_key(y) ==> n2[y] == (Node {
            prev: if i0 + 1 < c.len() && y == c[i0 + 1] {
                prev_in(c, i0)
            } else {
                nodes[y].prev
            },
            next: if i0 > 0 && y == c[i0 - 1] {
                next_in(c, i0)
            } else {
                nodes[y].next
            },
            ..nodes[y]
        })
}

impl Shape {
    /// The shape of a book without orders.
    pub open spec fn empty() -> Shape {
        Shape { nodes: Map::empty(), fifo: Map::empty(), bids: Map::empty(), asks: Map::empty() }
    }

    /// An order of `qty` at `price` can join `side`: the level's order count
    /// and its total quantity stay within machine range.
    pub open spec fn can_add(self, price: i64, qty: i64, side: Side) -> bool {
        &&& self.level_of((side, price)).count < usize::MAX
        &&& i64::MIN <= self.level_of((side, price)).total_qty + qty <= i64::MAX
    }

    /// Order `h` exists and its level's total stays within machine range
    /// when the order's quantity becomes `qty`.
    pub open spec fn can_set_qty(self, h: usize, qty: i64) -> bool {
        &&& self.nodes.contains_key(h)
        &&& i64::MIN <= self.level_of((self.nodes[h].side, self.nodes[h].price)).total_qty + qty
            - self.nodes[h].qty <= i64::MAX
    }

    /// Order `h` exists and its level's total stays within machine range
    /// when the order leaves.
    pub open spec fn can_cancel(self, h: usize) -> bool {
        &&& self.nodes.contains_key(h)
        &&& i64::MIN <= self.level_of((self.nodes[h].side, self.nodes[h].price)).total_qty
            - self.nodes[h].qty <= i64::MAX
    }

    /// The levels of `side` by price.
    pub open spec fn levels(self, side: Side) -> Map<i64, Level> {
        match side {
            Side::Bid => self.bids,
            Side::Ask => self.asks,
        }
    }

    /// The chain of level `k`, empty if there is no such level.
    pub open spec fn chain_of(self, k: LevelKey) -> Seq<usize> {
        if self.fifo.contains_key(k) {
            self.fifo[k]
        } else {
            Seq::empty()
        }
    }

    /// The level `k`, empty if there is no such level.
    pub open spec fn level_of(self, k: LevelKey) -> Level {
        if self.levels(k.0).contains_key(k.1) {
            self.levels(k.0)[k.1]
        } else {
            Level::spec_empty()
        }
    }

    /// The shape with the levels of `side` replaced.
    pub open spec fn with_levels(self, side: Side, m: Map<i64, Level>) -> Shape {
        match side {
            Side::Bid => Shape { bids: m, ..self },
            Side::Ask => Shape { asks: m, ..self },
        }
    }

    /// Levels and chains exist for the same keys.
    pub open spec fn levels_match(self) -> bool {
        forall|k: LevelKey| #[trigger] self.fifo.contains_key(k) <==> self.levels(k.0).contains_key(k.1)
    }

    /// Every chain agrees with its level.
    pub open spec fn chains_ok(self) -> bool {
        forall|k: LevelKey| #[trigger]
            self.fifo.contains_key(k) ==> chain_ok(self.nodes, k, self.fifo[k], self.levels(k.0)[k.1])
    }

    /// Every stored order is in the chain of its level.
    pub open spec fn nodes_placed(self) -> bool {
        forall|h: usize| #[trigger]
            self.nodes.contains_key(h) ==> {
                let k = (self.nodes[h].side, self.nodes[h].price);
                self.fifo.contains_key(k) && self.fifo[k].contains(h)
            }
    }

    /// The structure is sound.
    pub open spec fn wf(self) -> bool {
        &&& self.levels_match()
        &&& self.chains_ok()
        &&& self.nodes_placed()
    }

    /// The shape after a fresh order `h` joined the end of its level's chain.
    pub open spec fn added(self, h: usize, price: i64, qty: i64, side: Side) -> Shape {
        let k = (side, price);
        let lvl = self.level_of(k);
        let nodes1 = self.nodes.insert(h, Node { price, qty, side, prev: lvl.tail, next: None });
        let nodes2 = match lvl.tail {
            Some(t) => nodes1.insert(t, Node { next: Some(h), ..nodes1[t] }),
            None => nodes1,
        };
        let new_level = Level {
            head: if lvl.tail is None {
                Some(h)
            } else {
                lvl.head
            },
            tail: Some(h),
            total_qty: (lvl.total_qty + qty) as i64,
            count: (lvl.count + 1) as usize,
        };
        Shape { nodes: nodes2, fifo: self.fifo.insert(k, self.chain_of(k).push(h)), ..self }.with_levels(
            side,
            self.levels(side).insert(price, new_level),
        )
    }

    /// The shape after the quantity of order `h` became `qty`.
    pub open spec fn with_qty(self, h: usize, qty: i64) -> Shape {
        let n = self.nodes[h];
        let lvl = self.levels(n.side)[n.price];
        Shape { nodes: self.nodes.insert(h, Node { qty, ..n }), ..self }.with_levels(
            n.side,
            self.levels(n.side).insert(
                n.price,
                Level { total_qty: (lvl.total_qty + qty - n.qty) as i64, ..lvl },
            ),
        )
    }

    /// The shape after order `h` left its chain. A level that loses its last
    /// order disappears.
    pub open spec fn removed(self, h: usize) -> Shape {
        let n = self.nodes[h];
        let k = (n.side, n.price);
        let c = self.fifo[k];
        let lvl = self.levels(n.side)[n.price];
        let new_level = Level {
            head: if n.prev is None {
                n.next
            } else {
                lvl.head
            },
            tail: if n.next is None {
                n.prev
            } else {
                lvl.tail
            },
            total_qty: (lvl.total_qty - n.qty) as i64,
            count: (lvl.count - 1) as usize,
        };
        let c2 = c.remove(c.index_of(h));
        if c.len() == 1 {
            Shape { nodes: unlink(self.nodes, h), fifo: self.fifo.remove(k), ..self }.with_levels(
                n.side,
                self.levels(n.side).remove(n.price),
            )
        } else {
            Shape { nodes: unlink(self.nodes, h), fifo: self.fifo.insert(k, c2), ..self }.with_levels(
                n.side,
                self.levels(n.side).insert(n.price, new_level),
            )
        }
    }
}

/// Stores that agree on the quantities of the orders `c` give the same sum.
pub proof fn lemma_sum_frame(n1: Map<usize, Node>, n2: Map<usize, Node>, c: Seq<usize>)
    requires
        forall|i: int| 0 <= i < c.len() ==> n1[#[trigger] c[i]].qty == n2[c[i]].qty,
    ensures
        sum_qty(n1, c) == sum_qty(n2, c),
    decreases c.len(),
{
    if c.len() > 0 {
        let d = c.drop_last();
        assert forall|i: int| 0 <= i < d.len() implies n1[#[trigger] d[i]].qty == n2[d[i]].qty by {
            assert(d[i] == c[i]);
        }
        lemma_sum_frame(n1, n2, d);
    }
}

/// Taking the order at position `i` out of `c` lowers the sum by its quantity.
pub proof fn lemma_sum_remove(nodes: Map<usize, Node>, c: Seq<usize>, i: int)
    requires
        0 <= i < c.len(),
    ensures
        sum_qty(nodes, c.remove(i)) == sum_qty(nodes, c) - nodes[c[i]].qty,
    decreases c.len(),
{
    if i == c.len() - 1 {
        assert(c.remove(i) =~= c.drop_last());
    } else {
        lemma_sum_remove(nodes, c.drop_last(), i);
        assert(c.remove(i).drop_last() =~= c.drop_last().remove(i));
        assert(c.remove(i).last() == c.last());
    }
}

/// A chain stays sound when the store changes only outside it.
pub proof fn lemma_chain_frame(n1: Map<usize, Node>, n2: Map<usize, Node>, k: LevelKey, c: Seq<usize>, lvl: Level)
    requires
        chain_ok(n1, k, c, lvl),
        forall|i: int| 0 <= i < c.len() ==> n2.contains_key(#[trigger] c[i]) && n2[c[i]] == n1[c[i]],
    ensures
        chain_ok(n2, k, c, lvl),
{
    lemma_sum_frame(n1, n2, c);
    assert forall|i: int| 0 <= i < c.len() implies #[trigger] linked(n2, k, c, i) by {
        assert(linked(n1, k, c, i));
        assert(n2[c[i]] == n1[c[i]]);
    }
}

/// An order of a sound shape is stored under the key of the one chain that holds it.
pub proof fn lemma_member_key(sh: Shape, k: LevelKey, i: int)
    requires
        sh.wf(),
        sh.fifo.contains_key(k),
        0 <= i < sh.fifo[k].len(),
    ensures
        sh.nodes.contains_key(sh.fifo[k][i]),
        (sh.nodes[sh.fifo[k][i]].side, sh.nodes[sh.fifo[k][i]].price) == k,
{
    assert(chain_ok(sh.nodes, k, sh.fifo[k], sh.levels(k.0)[k.1]));
    assert(linked(sh.nodes, k, sh.fifo[k], i));
}

/// Adding a fresh order keeps the shape sound.
pub proof fn lemma_added_wf(sh: Shape, h: usize, price: i64, qty: i64, side: Side)
    requires
        sh.wf(),
        !sh.nodes.contains_key(h),
        sh.level_of((side, price)).count < usize::MAX,
        i64::MIN <= sh.level_of((side, price)).total_qty + qty <= i64::MAX,
    ensures
        sh.added(h, price, qty, side).wf(),
{
    let k0 = (side, price);
    let sh2 = sh.added(h, price, qty, side);
    let c0 = sh.chain_of(k0);
    let c1 = c0.push(h);
    let lvl = sh.level_of(k0);
    let lvl2 = sh2.levels(side)[price];
    assert(sh.fifo.contains_key(k0) <==> sh.levels(k0.0).contains_key(k0.1));
    if sh.fifo.contains_key(k0) {
        assert(chain_ok(sh.nodes, k0, c0, lvl));
        assert(linked(sh.nodes, k0, c0, c0.len() - 1));
    }
    assert forall|i: int| 0 <= i < c0.len() implies c0[i] != h && sh.nodes.contains_key(c0[i]) by {
        lemma_member_key(sh, k0, i);
    }
    // the chain of the level that took the order
    assert(c1.drop_last() =~= c0);
    assert forall|i: int| 0 <= i < c0.len() implies sh.nodes[#[trigger] c0[i]].qty == sh2.nodes[c0[i]].qty by {}
    lemma_sum_frame(sh.nodes, sh2.nodes, c0);
    assert forall|i: int| 0 <= i < c1.len() implies #[trigger] linked(sh2.nodes, k0, c1, i) by {
        if i < c0.len() {
            assert(linked(sh.nodes, k0, c0, i));
            if i < c0.len() - 1 {
                assert(c0[i] != c0[c0.len() - 1]);
            }
        }
    }
    assert(chain_ok(sh2.nodes, k0, c1, lvl2));
    // the other chains
    assert forall|k: LevelKey| #[trigger] sh2.fifo.contains_key(k) implies chain_ok(
        sh2.nodes,
        k,
        sh2.fifo[k],
        sh2.levels(k.0)[k.1],
    ) by {
        if k != k0 {
            assert(sh.fifo.contains_key(k));
            let c = sh.fifo[k];
            assert(chain_ok(sh.nodes, k, c, sh.levels(k.0)[k.1]));
            assert forall|i: int| 0 <= i < c.len() implies sh2.nodes.contains_key(#[trigger] c[i])
                && sh2.nodes[c[i]] == sh.nodes[c[i]] by {
                lemma_member_key(sh, k, i);
                if lvl.tail is Some {
                    lemma_member_key(sh, k0, c0.len() - 1);
                }
            }
            lemma_chain_frame(sh.nodes, sh2.nodes, k, c, sh.levels(k.0)[k.1]);
        }
    }
    assert forall|k: LevelKey| #[trigger]
        sh2.fifo.contains_key(k) <==> sh2.levels(k.0).contains_key(k.1) by {
        assert(sh.fifo.contains_key(k) <==> sh.levels(k.0).contains_key(k.1));
    }
    assert forall|x: usize| #[trigger] sh2.nodes.contains_key(x) implies ({
        let k = (sh2.nodes[x].side, sh2.nodes[x].price);
        sh2.fifo.contains_key(k) && sh2.fifo[k].contains(x)
    }) by {
        if x == h {
            assert(c1[c0.len() as int] == h);
        } else {
            assert(sh.nodes.contains_key(x));
            let k = (sh.nodes[x].side, sh.nodes[x].price);
            assert(sh.fifo[k].contains(x));
            if k == k0 {
                let j = choose|j: int| 0 <= j < c0.len() && c0[j] == x;
                assert(c1[j] == x);
            }
        }
    }
}

/// Changing the quantity of an order keeps the shape sound.
pub proof fn lemma_with_qty_wf(sh: Shape, h: usize, qty: i64)
    requires
        sh.wf(),
        sh.nodes.contains_key(h),
        i64::MIN <= sh.level_of((sh.nodes[h].side, sh.nodes[h].price)).total_qty + qty - sh.nodes[h].qty
            <= i64::MAX,
    ensures
        sh.with_qty(h, qty).wf(),
        sh.fifo.contains_key((sh.nodes[h].side, sh.nodes[h].price)),
        sh.levels(sh.nodes[h].side).contains_key(sh.nodes[h].price),
{
    let n = sh.nodes[h];
    let k0 = (n.side, n.price);
    let sh2 = sh.with_qty(h, qty);
    assert(sh.fifo.contains_key(k0) && sh.fifo[k0].contains(h));
    assert(sh.fifo.contains_key(k0) <==> sh.levels(k0.0).contains_key(k0.1));
    let c0 = sh.fifo[k0];
    let lvl = sh.levels(n.side)[n.price];
    let i0 = choose|i: int| 0 <= i < c0.len() && c0[i] == h;
    assert(chain_ok(sh.nodes, k0, c0, lvl));
    let rest = c0.remove(i0);
    lemma_sum_remove(sh.nodes, c0, i0);
    lemma_sum_remove(sh2.nodes, c0, i0);
    assert forall|i: int| 0 <= i < rest.len() implies sh.nodes[#[trigger] rest[i]].qty == sh2.nodes[rest[i]].qty by {
        if i < i0 {
            assert(rest[i] == c0[i]);
        } else {
            assert(rest[i] == c0[i + 1]);
        }
    }
    lemma_sum_frame(sh.nodes, sh2.nodes, rest);
    assert forall|i: int| 0 <= i < c0.len() implies #[trigger] linked(sh2.nodes, k0, c0, i) by {
        assert(linked(sh.nodes, k0, c0, i));
    }
    assert(chain_ok(sh2.nodes, k0, c0, sh2.levels(n.side)[n.price]));
    assert forall|k: LevelKey| #[trigger] sh2.fifo.contains_key(k) implies chain_ok(
        sh2.nodes,
        k,
        sh2.fifo[k],
        sh2.levels(k.0)[k.1],
    ) by {
        if k != k0 {
            let c = sh.fifo[k];
            assert(chain_ok(sh.nodes, k, c, sh.levels(k.0)[k.1]));
            assert forall|i: int| 0 <= i < c.len() implies sh2.nodes.contains_key(#[trigger] c[i])
                && sh2.nodes[c[i]] == sh.nodes[c[i]] by {
                lemma_member_key(sh, k, i);
            }
            lemma_chain_frame(sh.nodes, sh2.nodes, k, c, sh.levels(k.0)[k.1]);
        }
    }
    assert forall|k: LevelKey| #[trigger]
        sh2.fifo.contains_key(k) <==> sh2.levels(k.0).contains_key(k.1) by {
        assert(sh.fifo.contains_key(k) <==> sh.levels(k.0).contains_key(k.1));
    }
    assert forall|x: usize| #[trigger] sh2.nodes.contains_key(x) implies ({
        let k = (sh2.nodes[x].side, sh2.nodes[x].price);
        sh2.fifo.contains_key(k) && sh2.fifo[k].contains(x)
    }) by {
        assert(sh.nodes.contains_key(x));
    }
}

/// What is known of an order of a sound shape: its level exists, its chain
/// holds it, and its links are those of its place in the chain.
pub proof fn lemma_order_place(sh: Shape, h: usize)
    requires
        sh.wf(),
        sh.nodes.contains_key(h),
    ensures
        ({
            let n = sh.nodes[h];
            let k = (n.side, n.price);
            let c = sh.fifo[k];
            let i = c.index_of(h);
            &&& sh.fifo.contains_key(k)
            &&& sh.levels(n.side).contains_key(n.price)
            &&& chain_ok(sh.nodes, k, c, sh.levels(n.side)[n.price])
            &&& 0 <= i < c.len()
            &&& c[i] == h
            &&& n.prev == prev_in(c, i)
            &&& n.next == next_in(c, i)
        }),
{
    let n = sh.nodes[h];
    let k = (n.side, n.price);
    assert(sh.fifo.contains_key(k) && sh.fifo[k].contains(h));
    assert(sh.fifo.contains_key(k) <==> sh.levels(k.0).contains_key(k.1));
    let c = sh.fifo[k];
    assert(chain_ok(sh.nodes, k, c, sh.levels(n.side)[n.price]));
    let i = c.index_of(h);
    assert(linked(sh.nodes, k, c, i));
}

/// Cutting an order out of a sound chain changes the store as `unlinked_from` says.
pub proof fn lemma_unlink(nodes: Map<usize, Node>, k: LevelKey, c: Seq<usize>, lvl: Level, i0: int)
    requires
        chain_ok(nodes, k, c, lvl),
        0 <= i0 < c.len(),
    ensures
        unlinked_from(unlink(nodes, c[i0]), nodes, c, i0),
{
    let h = c[i0];
    let n2 = unlink(nodes, h);
    assert(linked(nodes, k, c, i0));
    if i0 > 0 {
        assert(linked(nodes, k, c, i0 - 1));
    }
    if i0 + 1 < c.len() {
        assert(linked(nodes, k, c, i0 + 1));
    }
    if i0 > 0 && i0 + 1 < c.len() {
        assert(c[i0 - 1] != c[i0 + 1]);
    }
}

/// What is left of a chain after one of several orders was cut out agrees
/// with the level that lost that order.
pub proof fn lemma_chain_after_unlink(
    nodes: Map<usize, Node>,
    n2: Map<usize, Node>,
    k: LevelKey,
    c: Seq<usize>,
    lvl: Level,
    i0: int,
)
    requires
        chain_ok(nodes, k, c, lvl),
        0 <= i0 < c.len(),
        c.len() > 1,
        unlinked_from(n2, nodes, c, i0),
        i64::MIN <= lvl.total_qty - nodes[c[i0]].qty <= i64::MAX,
    ensures
        chain_ok(
            n2,
            k,
            c.remove(i0),
            Level {
                head: if nodes[c[i0]].prev is None {
                    nodes[c[i0]].next
                } else {
                    lvl.head
                },
                tail: if nodes[c[i0]].next is None {
                    nodes[c[i0]].prev
                } else {
                    lvl.tail
                },
                total_qty: (lvl.total_qty - nodes[c[i0]].qty) as i64,
                count: (lvl.count - 1) as usize,
            },
        ),
{
    let h = c[i0];
    let c2 = c.remove(i0);
    assert(linked(nodes, k, c, i0));
    assert forall|a: int| 0 <= a < c2.len() implies c2[a] == (if a < i0 {
        c[a]
    } else {
        c[a + 1]
    }) by {}
    lemma_sum_remove(nodes, c, i0);
    assert forall|a: int| 0 <= a < c2.len() implies nodes[#[trigger] c2[a]].qty == n2[c2[a]].qty by {
        let b = if a < i0 {
            a
        } else {
            a + 1
        };
        assert(linked(nodes, k, c, b));
        assert(n2.contains_key(c[b]));
    }
    lemma_sum_frame(nodes, n2, c2);
    assert forall|a: int| 0 <= a < c2.len() implies #[trigger] linked(n2, k, c2, a) by {
        let b = if a < i0 {
            a
        } else {
            a + 1
        };
        assert(linked(nodes, k, c, b));
        assert(n2.contains_key(c[b]));
        if i0 > 0 {
            assert(c[b] == c[i0 - 1] <==> b == i0 - 1);
        }
        if i0 + 1 < c.len() {
            assert(c[b] == c[i0 + 1] <==> b == i0 + 1);
        }
    }
    assert forall|a: int, b: int| 0 <= a < c2.len() && 0 <= b < c2.len() && a != b implies c2[a] != c2[b] by {}
}

/// Removing an order keeps the shape sound.
pub proof fn lemma_removed_wf(sh: Shape, h: usize)
    requires
        sh.wf(),
        sh.nodes.contains_key(h),
        i64::MIN <= sh.level_of((sh.nodes[h].side, sh.nodes[h].price)).total_qty - sh.nodes[h].qty
            <= i64::MAX,
    ensures
        sh.removed(h).wf(),
{
    let n = sh.nodes[h];
    let k0 = (n.side, n.price);
    let sh2 = sh.removed(h);
    lemma_order_place(sh, h);
    let c = sh.fifo[k0];
    let lvl = sh.levels(n.side)[n.price];
    let i0 = c.index_of(h);
    let c2 = c.remove(i0);
    let n2 = unlink(sh.nodes, h);
    lemma_unlink(sh.nodes, k0, c, lvl, i0);
    assert(sh2.nodes == n2);
    assert forall|k: LevelKey| #[trigger] sh2.fifo.contains_key(k) implies chain_ok(
        sh2.nodes,
        k,
        sh2.fifo[k],
        sh2.levels(k.0)[k.1],
    ) by {
        if k != k0 {
            assert(sh.fifo.contains_key(k));
            let ck = sh.fifo[k];
            assert(chain_ok(sh.nodes, k, ck, sh.levels(k.0)[k.1]));
            assert forall|i: int| 0 <= i < ck.len() implies n2.contains_key(#[trigger] ck[i]) && n2[ck[i]]
                == sh.nodes[ck[i]] by {
                lemma_member_key(sh, k, i);
                lemma_member_key(sh, k0, i0);
                if i0 > 0 {
                    lemma_member_key(sh, k0, i0 - 1);
                }
                if i0 < c.len() - 1 {
                    lemma_member_key(sh, k0, i0 + 1);
                }
                assert(n2.contains_key(ck[i]));
            }
            lemma_chain_frame(sh.nodes, n2, k, ck, sh.levels(k.0)[k.1]);
        } else {
            lemma_chain_after_unlink(sh.nodes, n2, k0, c, lvl, i0);
        }
    }
    assert forall|k: LevelKey| #[trigger]
        sh2.fifo.contains_key(k) <==> sh2.levels(k.0).contains_key(k.1) by {
        assert(sh.fifo.contains_key(k) <==> sh.levels(k.0).contains_key(k.1));
    }
    assert forall|x: usize| #[trigger] sh2.nodes.contains_key(x) implies ({
        let k = (sh2.nodes[x].side, sh2.nodes[x].price);
        sh2.fifo.contains_key(k) && sh2.fifo[k].contains(x)
    }) by {
        assert(n2.contains_key(x));
        assert(sh.nodes.contains_key(x) && x != h);
        let k = (sh.nodes[x].side, sh.nodes[x].price);
        assert(sh.fifo.contains_key(k) && sh.fifo[k].contains(x));
        assert((n2[x].side, n2[x].price) == k);
        if k == k0 {
            let j = choose|j: int| 0 <= j < c.len() && c[j] == x;
            assert(j != i0);
            if j < i0 {
                assert(c2[j] == x);
            } else {
                assert(c2[j - 1] == x);
            }
        }
    }
}

} // verus!
