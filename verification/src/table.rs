//! Hash tables of the `hashbrown` crate, as this crate uses them.
//!
//! A table is opaque to the verifier. What it holds has a name for each use
//! (a map from keys to values), and each operation that this crate calls is
//! wrapped with a contract over that name. The keys are integers, or pairs of
//! integers, whose equality and hashing are those of the language.
use vstd::prelude::*;
use crate::decoder_itch::OrderState;
use crate::instrument::InstrumentBook;
use crate::level::lookup;

verus! {

/// A `hashbrown::HashMap` with the crate's default hasher.
#[verifier::external_body]
#[verifier::reject_recursive_types(K)]
#[verifier::reject_recursive_types(V)]
pub struct Table<K, V> {
    inner: hashbrown::HashMap<K, V>,
}

/// What a table of per-order decoder state holds.
pub uninterp spec fn order_states(t: Table<u64, OrderState>) -> Map<u64, OrderState>;

/// What a table of symbols by stock locate holds.
pub uninterp spec fn locate_symbols(t: Table<u16, [u8; 8]>) -> Map<u16, [u8; 8]>;

/// `HashMap::new`: an empty table.
#[verifier::external_body]
pub(crate) fn orders_new() -> (t: Table<u64, OrderState>)
    ensures
        order_states(t) =~= Map::empty(),
{
    Table { inner: hashbrown::HashMap::new() }
}

/// `HashMap::get`: the value stored under `k`, if any.
#[verifier::external_body]
pub(crate) fn orders_get(t: &Table<u64, OrderState>, k: u64) -> (r: Option<OrderState>)
    ensures
        r == if order_states(*t).contains_key(k) {
            Some(order_states(*t)[k])
        } else {
            None
        },
{
    t.inner.get(&k).copied()
}

/// `HashMap::insert`: stores `v` under `k`, replacing what was there.
#[verifier::external_body]
pub(crate) fn orders_insert(t: &mut Table<u64, OrderState>, k: u64, v: OrderState)
    ensures
        order_states(*final(t)) == order_states(*old(t)).insert(k, v),
{
    t.inner.insert(k, v);
}

/// `HashMap::remove`: removes the entry of `k` and returns its value, if there was one.
#[verifier::external_body]
pub(crate) fn orders_remove(t: &mut Table<u64, OrderState>, k: u64) -> (r: Option<OrderState>)
    ensures
        r == if order_states(*old(t)).contains_key(k) {
            Some(order_states(*old(t))[k])
        } else {
            None
        },
        order_states(*final(t)) == order_states(*old(t)).remove(k),
{
    t.inner.remove(&k)
}

/// `HashMap::new`: an empty table.
#[verifier::external_body]
pub(crate) fn symbols_new() -> (t: Table<u16, [u8; 8]>)
    ensures
        locate_symbols(t) =~= Map::empty(),
{
    Table { inner: hashbrown::HashMap::new() }
}

/// `HashMap::insert`: stores `v` under `k`, replacing what was there.
#[verifier::external_body]
pub(crate) fn symbols_insert(t: &mut Table<u16, [u8; 8]>, k: u16, v: [u8; 8])
    ensures
        locate_symbols(*final(t)) == locate_symbols(*old(t)).insert(k, v),
{
    t.inner.insert(k, v);
}

/// What a table of books by instrument holds.
pub uninterp spec fn book_table(t: Table<u32, InstrumentBook>) -> Map<u32, InstrumentBook>;

/// What a table of order locations (instrument and handle) by order id holds.
pub uninterp spec fn order_index(t: Table<u64, (u32, usize)>) -> Map<u64, (u32, usize)>;

/// What a table of order ids by order location holds.
pub uninterp spec fn handle_owners(t: Table<(u32, usize), u64>) -> Map<(u32, usize), u64>;

/// `HashMap::new`: an empty table.
#[verifier::external_body]
pub(crate) fn books_new() -> (t: Table<u32, InstrumentBook>)
    ensures
        book_table(t) =~= Map::empty(),
{
    Table { inner: hashbrown::HashMap::new() }
}

/// `HashMap::entry` with `Entry::or_insert_with`: the book stored under
/// `instr`, after a book made by `InstrumentBook::with_capacity` was stored
/// there if there was none. What the caller does to the book is what the
/// table holds afterwards.
#[verifier::external_body]
pub(crate) fn books_entry(t: &mut Table<u32, InstrumentBook>, instr: u32, capacity: usize) -> (b:
    &mut InstrumentBook)
    ensures
        book_table(*old(t)).contains_key(instr) ==> *b == book_table(*old(t))[instr],
        !book_table(*old(t)).contains_key(instr) ==> b.is_fresh(),
        book_table(*final(t)) == book_table(*old(t)).insert(instr, *final(b)),
{
    t.inner.entry(instr).or_insert_with(|| InstrumentBook::with_capacity(capacity))
}

/// `HashMap::get`: the book stored under `instr`, if any.
#[verifier::external_body]
pub(crate) fn books_get(t: &Table<u32, InstrumentBook>, instr: u32) -> (r: Option<&InstrumentBook>)
    ensures
        match r {
            Some(b) => book_table(*t).contains_key(instr) && *b == book_table(*t)[instr],
            None => !book_table(*t).contains_key(instr),
        },
{
    t.inner.get(&instr)
}

/// `HashMap::keys`: the instruments that have a book, each once, in no particular order.
#[verifier::external_body]
pub(crate) fn books_keys(t: &Table<u32, InstrumentBook>) -> (r: Vec<u32>)
    ensures
        r@.no_duplicates(),
        r@.to_set() == book_table(*t).dom(),
{
    t.inner.keys().copied().collect()
}

/// `HashMap::new`: an empty table.
#[verifier::external_body]
pub(crate) fn index_new() -> (t: Table<u64, (u32, usize)>)
    ensures
        order_index(t) =~= Map::empty(),
{
    Table { inner: hashbrown::HashMap::new() }
}

/// `HashMap::get`: the location stored under `k`, if any.
#[verifier::external_body]
pub(crate) fn index_get(t: &Table<u64, (u32, usize)>, k: u64) -> (r: Option<(u32, usize)>)
    ensures
        r == lookup(order_index(*t), k),
{
    t.inner.get(&k).copied()
}

/// `HashMap::insert`: stores `v` under `k`, replacing what was there.
#[verifier::external_body]
pub(crate) fn index_insert(t: &mut Table<u64, (u32, usize)>, k: u64, v: (u32, usize))
    ensures
        order_index(*final(t)) == order_index(*old(t)).insert(k, v),
{
    t.inner.insert(k, v);
}

/// `HashMap::remove`: removes the entry of `k` and returns its value, if there was one.
#[verifier::external_body]
pub(crate) fn index_remove(t: &mut Table<u64, (u32, usize)>, k: u64) -> (r: Option<(u32, usize)>)
    ensures
        r == lookup(order_index(*old(t)), k),
        order_index(*final(t)) == order_index(*old(t)).remove(k),
{
    t.inner.remove(&k)
}

/// `HashMap::len`: the number of entries.
#[verifier::external_body]
pub(crate) fn index_len(t: &Table<u64, (u32, usize)>) -> (n: usize)
    ensures
        n == order_index(*t).dom().len(),
{
    t.inner.len()
}

/// `HashMap::iter`: the entries, each once, in no particular order.
#[verifier::external_body]
pub(crate) fn index_pairs(t: &Table<u64, (u32, usize)>) -> (r: Vec<(u64, (u32, usize))>)
    ensures
        forall|i: int, j: int| 0 <= i < j < r@.len() ==> r@[i].0 != r@[j].0,
        forall|i: int| 0 <= i < r@.len() ==> order_index(*t).contains_key(r@[i].0) && order_index(*t)[r@[i].0] == r@[i].1,
        forall|k: u64| order_index(*t).contains_key(k) ==> exists|i: int| 0 <= i < r@.len() && r@[i].0 == k,
{
    t.inner.iter().map(|e| (*e.0, *e.1)).collect()
}

/// `HashMap::with_capacity`: an empty table.
#[verifier::external_body]
pub(crate) fn owners_with_capacity(capacity: usize) -> (t: Table<(u32, usize), u64>)
    ensures
        handle_owners(t) =~= Map::empty(),
{
    Table { inner: hashbrown::HashMap::with_capacity(capacity) }
}

/// `HashMap::insert`: stores `v` under `k`, replacing what was there.
#[verifier::external_body]
pub(crate) fn owners_insert(t: &mut Table<(u32, usize), u64>, k: (u32, usize), v: u64)
    ensures
        handle_owners(*final(t)) == handle_owners(*old(t)).insert(k, v),
{
    t.inner.insert(k, v);
}

/// `HashMap::get`: the order id stored under `k`, if any.
#[verifier::external_body]
pub(crate) fn owners_get(t: &Table<(u32, usize), u64>, k: (u32, usize)) -> (r: Option<u64>)
    ensures
        r == lookup(handle_owners(*t), k),
{
    t.inner.get(&k).copied()
}

/// What a table of next sequence numbers by instrument holds.
pub uninterp spec fn seq_counters(t: Table<u64, u64>) -> Map<u64, u64>;

/// `HashMap::new`: an empty table.
#[verifier::external_body]
pub(crate) fn counters_new() -> (t: Table<u64, u64>)
    ensures
        seq_counters(t) =~= Map::empty(),
{
    Table { inner: hashbrown::HashMap::new() }
}

/// `HashMap::get`: the number stored under `k`, if any.
#[verifier::external_body]
pub(crate) fn counters_get(t: &Table<u64, u64>, k: u64) -> (r: Option<u64>)
    ensures
        r == lookup(seq_counters(*t), k),
{
    t.inner.get(&k).copied()
}

/// `HashMap::insert`: stores `v` under `k`, replacing what was there.
#[verifier::external_body]
pub(crate) fn counters_insert(t: &mut Table<u64, u64>, k: u64, v: u64)
    ensures
        seq_counters(*final(t)) == seq_counters(*old(t)).insert(k, v),
{
    t.inner.insert(k, v);
}

} // verus!
