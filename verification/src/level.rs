//! Price levels and the ordered store of levels outside the tick grid.
use vstd::prelude::*;
use std::collections::BTreeMap;
use vstd::std_specs::btree::{increasing_seq, spec_keys_iter};
use vstd::std_specs::cmp::OrdSpec;
use vstd::std_specs::iter::IteratorSpec;

verus! {

/// A price level: the ends of its FIFO chain of orders, the sum of their
/// quantities and their number.
#[derive(Clone, Copy, Debug, PartialEq, Eq, Structural)]
pub struct Level {
    pub head: Option<usize>,
    pub tail: Option<usize>,
    pub total_qty: i64,
    pub count: usize,
}

impl Level {
    /// A level without orders.
    pub open spec fn spec_empty() -> Level {
        Level { head: None, tail: None, total_qty: 0, count: 0 }
    }

    /// A level without orders.
    pub fn empty() -> (l: Level)
        ensures
            l == Level::spec_empty(),
    {
        Level { head: None, tail: None, total_qty: 0, count: 0 }
    }

    /// Whether the level has no orders.
    pub fn is_empty(&self) -> (r: bool)
        ensures
            r == (self.count == 0),
    {
        self.count == 0
    }
}

impl Default for Level {
    fn default() -> (l: Level)
        ensures
            l == Level::spec_empty(),
    {
        Level::empty()
    }
}

/// The value that `m` holds for `k`, if any.
pub open spec fn lookup<K, V>(m: Map<K, V>, k: K) -> Option<V> {
    if m.contains_key(k) {
        Some(m[k])
    } else {
        None
    }
}

/// `keys` lists the prices of `m` from lowest to highest.
pub open spec fn ascending_keys(m: Map<i64, Level>, keys: Seq<i64>) -> bool {
    &&& keys.to_set() == m.dom()
    &&& forall|i: int, j: int| 0 <= i < j < keys.len() ==> keys[i] < keys[j]
}

/// Only one sequence lists the prices of a map from lowest to highest.
pub proof fn lemma_ascending_unique(m: Map<i64, Level>, a: Seq<i64>, b: Seq<i64>)
    requires
        ascending_keys(m, a),
        ascending_keys(m, b),
    ensures
        a == b,
    decreases a.len(),
{
    if a.len() == 0 {
        if b.len() > 0 {
            assert(b.to_set().contains(b[0]));
            assert(a.to_set().contains(b[0]));
        }
        assert(a =~= b);
    } else {
        let x = a.last();
        assert(a.to_set().contains(x));
        assert(b.to_set().contains(x));
        let j = choose|j: int| 0 <= j < b.len() && b[j] == x;
        if j < b.len() - 1 {
            let y = b.last();
            assert(b.to_set().contains(y));
            assert(a.to_set().contains(y));
            let i = choose|i: int| 0 <= i < a.len() && a[i] == y;
            assert(a[i] <= x);
            assert(b[j] < b[b.len() - 1]);
        }
        let a2 = a.drop_last();
        let b2 = b.drop_last();
        let m2 = m.remove(x);
        assert forall|p: i64| a2.to_set().contains(p) <==> m2.dom().contains(p) by {
            if a2.to_set().contains(p) {
                let i = choose|i: int| 0 <= i < a2.len() && a2[i] == p;
                assert(a[i] == p);
                assert(a[i] < a[a.len() - 1]);
                assert(a.to_set().contains(p));
            }
            if m2.dom().contains(p) {
                assert(a.to_set().contains(p));
                let i = choose|i: int| 0 <= i < a.len() && a[i] == p;
                assert(a2[i] == p);
            }
        }
        assert forall|p: i64| b2.to_set().contains(p) <==> m2.dom().contains(p) by {
            if b2.to_set().contains(p) {
                let i = choose|i: int| 0 <= i < b2.len() && b2[i] == p;
                assert(b[i] == p);
                assert(b[i] < b[b.len() - 1]);
                assert(b.to_set().contains(p));
            }
            if m2.dom().contains(p) {
                assert(b.to_set().contains(p));
                let i = choose|i: int| 0 <= i < b.len() && b[i] == p;
                assert(b2[i] == p);
            }
        }
        assert(a2.to_set() =~= m2.dom());
        assert(b2.to_set() =~= m2.dom());
        lemma_ascending_unique(m2, a2, b2);
        assert(a =~= a2.push(x));
        assert(b =~= b2.push(x));
    }
}

/// In an increasing sequence an earlier element compares as less than a later one.
proof fn lemma_increasing_at<K: Ord>(s: Seq<K>, i: int, j: int)
    requires
        vstd::laws_cmp::obeys_cmp::<K>(),
        increasing_seq(s),
        0 <= i < j < s.len(),
    ensures
        s[i].cmp_spec(&s[j]) is Less,
{
}

/// `BTreeMap::first_key_value`: the entry with the lowest key, if the map has any.
#[verifier::external_body]
fn btree_first(m: &BTreeMap<i64, Level>) -> (r: Option<(i64, Level)>)
    ensures
        match r {
            Some(e) => m@.contains_key(e.0) && m@[e.0] == e.1 && forall|k: i64| m@.contains_key(k) ==> e.0 <= k,
            None => forall|k: i64| !m@.contains_key(k),
        },
{
    m.first_key_value().map(|e| (*e.0, *e.1))
}

/// `BTreeMap::last_key_value`: the entry with the highest key, if the map has any.
#[verifier::external_body]
fn btree_last(m: &BTreeMap<i64, Level>) -> (r: Option<(i64, Level)>)
    ensures
        match r {
            Some(e) => m@.contains_key(e.0) && m@[e.0] == e.1 && forall|k: i64| m@.contains_key(k) ==> k <= e.0,
            None => forall|k: i64| !m@.contains_key(k),
        },
{
    m.last_key_value().map(|e| (*e.0, *e.1))
}

/// The levels whose prices the tick grid cannot address, ordered by price.
pub struct Overflow {
    pub map: BTreeMap<i64, Level>,
}

impl View for Overflow {
    type V = Map<i64, Level>;

    open spec fn view(&self) -> Map<i64, Level> {
        self.map@
    }
}

impl Overflow {
    /// An empty store.
    pub fn new() -> (o: Self)
        ensures
            o@ == Map::<i64, Level>::empty(),
    {
        Overflow { map: BTreeMap::new() }
    }

    /// The level at `price`, if there is one.
    pub fn get(&self, price: i64) -> (r: Option<Level>)
        ensures
            r == if self@.contains_key(price) {
                Some(self@[price])
            } else {
                None
            },
    {
        match self.map.get(&price) {
            Some(l) => Some(*l),
            None => None,
        }
    }

    /// Stores `level` at `price`, replacing the level that was there.
    pub fn insert(&mut self, price: i64, level: Level)
        ensures
            final(self)@ == old(self)@.insert(price, level),
    {
        let _ = self.map.insert(price, level);
    }

    /// Removes the level at `price`, if there is one.
    pub fn remove(&mut self, price: i64)
        ensures
            final(self)@ == old(self)@.remove(price),
    {
        let _ = self.map.remove(&price);
    }

    /// The level with the lowest price, if there is any.
    pub fn first(&self) -> (r: Option<(i64, Level)>)
        ensures
            match r {
                Some(e) => self@.contains_key(e.0) && self@[e.0] == e.1 && forall|k: i64|
                    self@.contains_key(k) ==> e.0 <= k,
                None => forall|k: i64| !self@.contains_key(k),
            },
    {
        btree_first(&self.map)
    }

    /// The level with the highest price, if there is any.
    pub fn last(&self) -> (r: Option<(i64, Level)>)
        ensures
            match r {
                Some(e) => self@.contains_key(e.0) && self@[e.0] == e.1 && forall|k: i64|
                    self@.contains_key(k) ==> k <= e.0,
                None => forall|k: i64| !self@.contains_key(k),
            },
    {
        btree_last(&self.map)
    }

    /// The prices of the store, from lowest to highest.
    pub fn prices(&self) -> (keys: Vec<i64>)
        ensures
            ascending_keys(self@, keys@),
    {
        let mut keys: Vec<i64> = Vec::new();
        let ghost all = IteratorSpec::remaining(&spec_keys_iter(&self.map));
        for k in it: self.map.keys()
            invariant
                it.seq() == all,
                keys@.len() == it.index(),
                forall|i: int| 0 <= i < keys@.len() ==> keys@[i] == *it.seq()[i],
        {
            keys.push(*k);
        }
        proof {
            assert(keys@ =~= all.unref());
            broadcast use vstd::laws_cmp::group_laws_cmp;
            assert(vstd::laws_cmp::obeys_cmp::<i64>());
            assert(vstd::laws_cmp::obeys_cmp::<&i64>());
            assert(increasing_seq(all));
            assert forall|i: int, j: int| 0 <= i < j < keys@.len() implies keys@[i] < keys@[j] by {
                lemma_increasing_at(all, i, j);
            }
        }
        keys
    }
}

} // verus!
