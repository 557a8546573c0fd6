//! The query string of a client's request: where to start in the stream and
//! whether to send a snapshot first.
use vstd::prelude::*;
use crate::text::{chars_of, parse_unsigned, read_unsigned};

verus! {

/// A name and a value of a query string.
pub type Pair = (Seq<char>, Seq<char>);

/// The name-value pairs of the query of the request target `uri`, read as a
/// URL relative to `http://localhost`; nothing if that is no URL.
pub uninterp spec fn query_pairs(uri: Seq<char>) -> Option<Seq<Pair>>;

/// The views of a list of pairs of strings.
pub open spec fn pairs_view(v: Seq<(String, String)>) -> Seq<Pair> {
    v.map_values(|p: (String, String)| (p.0@, p.1@))
}

/// `Url::parse` and `Url::query_pairs` of the `url` crate: the request
/// target is parsed as a URL relative to `http://localhost`, and the pairs
/// of its query are handed out decoded, in their order.
#[verifier::external_body]
fn url_query_pairs(uri: &str) -> (r: Option<Vec<(String, String)>>)
    ensures
        match r {
            Some(v) => query_pairs(uri@) == Some(pairs_view(v@)),
            None => query_pairs(uri@) is None,
        },
{
    let parsed = url::Url::parse(&format!("http://localhost{}", uri)).ok();
    parsed.map(|u| u.query_pairs().map(|p| (p.0.into_owned(), p.1.into_owned())).collect())
}

/// What a client asks for.
#[derive(Debug, Clone, Copy, PartialEq, Eq, Structural)]
pub struct ClientQuery {
    /// The global sequence number to start from.
    pub from_seq: Option<u64>,
    /// Whether to send a snapshot first.
    pub snapshot: bool,
}

/// The request after one more pair was read: `from_seq` with a value that
/// is an unsigned 64-bit number sets the start; `snapshot` sets the flag,
/// to true for the values `1` and `true`; other pairs change nothing.
pub open spec fn with_pair(q: ClientQuery, p: Pair) -> ClientQuery {
    if p.0 == "from_seq"@ {
        match parse_unsigned(p.1, 0, p.1.len() as int, u64::MAX as nat) {
            Some(n) => ClientQuery { from_seq: Some(n as u64), ..q },
            None => q,
        }
    } else if p.0 == "snapshot"@ {
        ClientQuery { snapshot: p.1 == "1"@ || p.1 == "true"@, ..q }
    } else {
        q
    }
}

/// The request that the pairs spell, read in order: later pairs override earlier ones.
pub open spec fn spec_pick(pairs: Seq<Pair>) -> ClientQuery
    decreases pairs.len(),
{
    if pairs.len() == 0 {
        ClientQuery { from_seq: None, snapshot: false }
    } else {
        with_pair(spec_pick(pairs.drop_last()), pairs.last())
    }
}

/// What the request target `uri` asks for; nothing in particular if it is no URL.
pub open spec fn spec_parse_query(uri: Seq<char>) -> ClientQuery {
    match query_pairs(uri) {
        Some(p) => spec_pick(p),
        None => ClientQuery { from_seq: None, snapshot: false },
    }
}

/// Whether two strings hold the same characters.
fn same_text(a: &Vec<char>, b: &str) -> (r: bool)
    ensures
        r == (a@ == b@),
{
    let w = chars_of(b);
    if a.len() != w.len() {
        return false;
    }
    let mut i: usize = 0;
    while i < a.len()
        invariant
            w@ == b@,
            a@.len() == w@.len(),
            i <= a@.len(),
            forall|j: int| 0 <= j < i ==> a@[j] == w@[j],
        decreases a@.len() - i,
    {
        if a[i] != w[i] {
            return false;
        }
        i += 1;
    }
    assert(a@ =~= w@);
    true
}

/// Reads what the pairs of a query string ask for.
pub fn pick_query(pairs: &Vec<(String, String)>) -> (q: ClientQuery)
    ensures
        q == spec_pick(pairs_view(pairs@)),
{
    let mut q = ClientQuery { from_seq: None, snapshot: false };
    let mut i: usize = 0;
    let ghost pv = pairs_view(pairs@);
    assert(pv.take(0) =~= Seq::<Pair>::empty());
    while i < pairs.len()
        invariant
            i <= pairs@.len(),
            pv == pairs_view(pairs@),
            q == spec_pick(pv.take(i as int)),
        decreases pairs@.len() - i,
    {
        let k = chars_of(pairs[i].0.as_str());
        let v = chars_of(pairs[i].1.as_str());
        proof {
            let t = pv.take(i + 1);
            assert(t.drop_last() =~= pv.take(i as int));
            assert(t.last() == (pairs@[i as int].0@, pairs@[i as int].1@));
        }
        if same_text(&k, "from_seq") {
            match read_unsigned(&v, 0, v.len(), u64::MAX) {
                Some(n) => {
                    q.from_seq = Some(n);
                },
                None => {},
            }
        } else if same_text(&k, "snapshot") {
            q.snapshot = same_text(&v, "1") || same_text(&v, "true");
        }
        i += 1;
    }
    assert(pv.take(i as int) =~= pv);
    q
}

/// Reads what the request target `uri` of a client asks for.
pub fn parse_query(uri: &str) -> (q: ClientQuery)
    ensures
        q == spec_parse_query(uri@),
{
    match url_query_pairs(uri) {
        Some(pairs) => pick_query(&pairs),
        None => ClientQuery { from_seq: None, snapshot: false },
    }
}

} // verus!
