//! URI model: a path plus an optional, ordered, multi-valued query.
//!
//! The path is stored undecoded; percent-decoding is explicit and on demand
//! through [`crate::encoding::decode`].

use vstd::prelude::*;

use vstd::slice::{slice_subrange, slice_to_vec};

use crate::bytes::{find_byte, first_index, split_bytes, split_seq, views};

verus! {

/// One `key=value` pair of a query string. A pair without `=` keeps the
/// whole piece as its key and has an empty value.
pub open spec fn pair_of(piece: Seq<u8>) -> (Seq<u8>, Seq<u8>) {
    let k = first_index(piece, '=' as u8);
    if k < 0 {
        (piece, seq![])
    } else {
        (piece.take(k), piece.skip(k + 1))
    }
}

/// The ordered pairs of a raw query string: pieces split on `&`, each split
/// at its first `=`.
pub open spec fn query_of(raw: Seq<u8>) -> Seq<(Seq<u8>, Seq<u8>)> {
    split_seq(raw, '&' as u8).map_values(|piece: Seq<u8>| pair_of(piece))
}

/// Ordered multi-value query mapping; duplicate keys keep insertion order.
#[derive(Clone, Debug)]
pub struct Query {
    /// The `key=value` pairs in order of appearance.
    pub pairs: Vec<(Vec<u8>, Vec<u8>)>,
}

impl View for Query {
    type V = Seq<(Seq<u8>, Seq<u8>)>;

    open spec fn view(&self) -> Seq<(Seq<u8>, Seq<u8>)> {
        self.pairs@.map_values(|p: (Vec<u8>, Vec<u8>)| (p.0@, p.1@))
    }
}

/// The values bound to `key`, in order of appearance.
pub open spec fn values_of(ps: Seq<(Seq<u8>, Seq<u8>)>, key: Seq<u8>) -> Seq<Seq<u8>>
    decreases ps.len(),
{
    if ps.len() == 0 {
        seq![]
    } else if ps[0].0 == key {
        seq![ps[0].1] + values_of(ps.drop_first(), key)
    } else {
        values_of(ps.drop_first(), key)
    }
}

impl Query {
    /// Parses a raw query string into its ordered pairs.
    pub fn parse(raw: &[u8]) -> (q: Query)
        ensures
            q@ == query_of(raw@),
    {
        let pieces = split_bytes(raw, '&' as u8);
        let mut pairs: Vec<(Vec<u8>, Vec<u8>)> = Vec::new();
        let mut i: usize = 0;
        while i < pieces.len()
            invariant
                i <= pieces.len(),
                views(pieces@) == split_seq(raw@, '&' as u8),
                pairs@.map_values(|p: (Vec<u8>, Vec<u8>)| (p.0@, p.1@)) =~= views(
                    pieces@,
                ).map_values(|piece: Seq<u8>| pair_of(piece)).take(i as int),
            decreases pieces.len() - i,
        {
            let piece = &pieces[i];
            let ghost pre = pairs@;
            match find_byte(piece.as_slice(), '=' as u8) {
                Some(k) => {
                    proof {
                        crate::bytes::lemma_first_index_props(piece@, '=' as u8);
                    }
                    let n = piece.len();
                    let key = slice_subrange(piece.as_slice(), 0, k);
                    let value = slice_subrange(piece.as_slice(), k + 1, n);
                    pairs.push((slice_to_vec(key), slice_to_vec(value)));
                    proof {
                        assert(key@ =~= piece@.take(k as int));
                        assert(value@ =~= piece@.skip(k + 1));
                    }
                },
                None => {
                    let key = slice_to_vec(piece.as_slice());
                    pairs.push((key, Vec::new()));
                },
            }
            proof {
                let f = |p: (Vec<u8>, Vec<u8>)| (p.0@, p.1@);
                let g = |piece: Seq<u8>| pair_of(piece);
                assert(pairs@.map_values(f) =~= pre.map_values(f).push(f(pairs@.last())));
                assert(f(pairs@.last()) == pair_of(views(pieces@)[i as int]));
                assert(views(pieces@).map_values(g).take(i + 1) =~= views(pieces@).map_values(
                    g,
                ).take(i as int).push(pair_of(views(pieces@)[i as int])));
            }
            i += 1;
        }
        proof {
            let g = |piece: Seq<u8>| pair_of(piece);
            assert(views(pieces@).map_values(g).take(pieces@.len() as int) =~= query_of(raw@));
        }
        Query { pairs }
    }

    /// First value bound to `key`, if any.
    pub fn get(&self, key: &[u8]) -> (r: Option<&Vec<u8>>)
        ensures
            match r {
                Some(v) => values_of(self@, key@).len() > 0 && v@ == values_of(self@, key@)[0],
                None => values_of(self@, key@).len() == 0,
            },
    {
        let mut i: usize = 0;
        while i < self.pairs.len()
            invariant
                i <= self.pairs.len(),
                forall|j: int| 0 <= j < i ==> self@[j].0 != key@,
            decreases self.pairs.len() - i,
        {
            if crate::bytes::bytes_eq(self.pairs[i].0.as_slice(), key) {
                proof {
                    lemma_values_first(self@, key@, i as int);
                }
                return Some(&self.pairs[i].1);
            }
            i += 1;
        }
        proof {
            lemma_values_absent(self@, key@);
        }
        None
    }

    /// Every value bound to `key`, in order of appearance.
    pub fn get_all(&self, key: &[u8]) -> (r: Vec<Vec<u8>>)
        ensures
            views(r@) == values_of(self@, key@),
    {
        let mut out: Vec<Vec<u8>> = Vec::new();
        let mut i: usize = 0;
        proof {
            assert(self@.skip(0) =~= self@);
            assert(views(out@) + values_of(self@.skip(0), key@) =~= values_of(self@, key@));
        }
        while i < self.pairs.len()
            invariant
                i <= self.pairs.len(),
                values_of(self@, key@) == views(out@) + values_of(self@.skip(i as int), key@),
            decreases self.pairs.len() - i,
        {
            let ghost pre = out@;
            let ghost rest = self@.skip(i as int);
            if crate::bytes::bytes_eq(self.pairs[i].0.as_slice(), key) {
                out.push(slice_to_vec(self.pairs[i].1.as_slice()));
                proof {
                    assert(rest[0] == self@[i as int]);
                    assert(rest.drop_first() =~= self@.skip(i + 1));
                    assert(views(out@) =~= views(pre) + seq![self@[i as int].1]);
                }
            } else {
                proof {
                    assert(rest[0] == self@[i as int]);
                    assert(rest.drop_first() =~= self@.skip(i + 1));
                }
            }
            i += 1;
        }
        proof {
            assert(self@.skip(self@.len() as int) =~= Seq::<(Seq<u8>, Seq<u8>)>::empty());
            assert(views(out@) =~= views(out@) + values_of(
                self@.skip(self@.len() as int),
                key@,
            ));
        }
        out
    }
}

/// If nothing before `i` matches and pair `i` does, its value heads the list.
proof fn lemma_values_first(ps: Seq<(Seq<u8>, Seq<u8>)>, key: Seq<u8>, i: int)
    requires
        0 <= i < ps.len(),
        ps[i].0 == key,
        forall|j: int| 0 <= j < i ==> ps[j].0 != key,
    ensures
        values_of(ps, key).len() > 0,
        values_of(ps, key)[0] == ps[i].1,
    decreases i,
{
    if i == 0 {
    } else {
        assert forall|j: int| 0 <= j < i - 1 implies ps.drop_first()[j].0 != key by {
            assert(ps.drop_first()[j] == ps[j + 1]);
        }
        assert(ps.drop_first()[i - 1] == ps[i]);
        lemma_values_first(ps.drop_first(), key, i - 1);
    }
}

/// If no pair matches, no value is bound.
proof fn lemma_values_absent(ps: Seq<(Seq<u8>, Seq<u8>)>, key: Seq<u8>)
    requires
        forall|j: int| 0 <= j < ps.len() ==> ps[j].0 != key,
    ensures
        values_of(ps, key).len() == 0,
    decreases ps.len(),
{
    if ps.len() == 0 {
    } else {
        assert forall|j: int| 0 <= j < ps.drop_first().len() implies ps.drop_first()[j].0
            != key by {
            assert(ps.drop_first()[j] == ps[j + 1]);
        }
        lemma_values_absent(ps.drop_first(), key);
    }
}

/// Ghost shape of a [`Uri`]: the undecoded path and the parsed query.
pub struct UriView {
    /// Undecoded path bytes.
    pub path: Seq<u8>,
    /// Parsed query pairs, when a `?` was present.
    pub query: Option<Seq<(Seq<u8>, Seq<u8>)>>,
}

/// The URI a raw request target splits into: path before the first `?`,
/// query after it.
pub open spec fn uri_of(raw: Seq<u8>) -> UriView {
    let k = first_index(raw, '?' as u8);
    if k < 0 {
        UriView { path: raw, query: None }
    } else {
        UriView { path: raw.take(k), query: Some(query_of(raw.skip(k + 1))) }
    }
}

/// Immutable path plus optional query. The path is kept undecoded.
#[derive(Clone, Debug)]
pub struct Uri {
    /// Undecoded path bytes.
    pub path: Vec<u8>,
    /// Parsed query, when the raw target carried a `?`.
    pub query: Option<Query>,
}

impl View for Uri {
    type V = UriView;

    open spec fn view(&self) -> UriView {
        UriView {
            path: self.path@,
            query: match self.query {
                Some(q) => Some(q@),
                None => None,
            },
        }
    }
}

impl Uri {
    /// Builds a URI from its parts.
    pub fn new(path: Vec<u8>, query: Option<Query>) -> (u: Uri)
        ensures
            u@.path == path@,
            u@.query == match query {
                Some(q) => Some(q@),
                None => None::<Seq<(Seq<u8>, Seq<u8>)>>,
            },
    {
        Uri { path, query }
    }

    /// Splits a raw request target on its first `?` into path and query.
    pub fn parse(raw: &[u8]) -> (u: Uri)
        ensures
            u@.path == uri_of(raw@).path,
            u@.query == uri_of(raw@).query,
    {
        match find_byte(raw, '?' as u8) {
            Some(k) => {
                proof {
                    crate::bytes::lemma_first_index_props(raw@, '?' as u8);
                }
                let n = raw.len();
                let path = slice_to_vec(slice_subrange(raw, 0, k));
                let query = Query::parse(slice_subrange(raw, k + 1, n));
                proof {
                    assert(path@ =~= raw@.take(k as int));
                    assert(raw@.subrange(k + 1, raw@.len() as int) =~= raw@.skip(k + 1));
                }
                Uri { path, query: Some(query) }
            },
            None => Uri { path: slice_to_vec(raw), query: None },
        }
    }

    /// The root URI `/` with no query.
    pub fn root() -> (u: Uri)
        ensures
            u@.path == seq!['/' as u8],
            u@.query is None,
    {
        let mut path: Vec<u8> = Vec::new();
        path.push('/' as u8);
        proof {
            assert(path@ =~= seq!['/' as u8]);
        }
        Uri { path, query: None }
    }
}

impl Default for Uri {
    /// The root URI `/` with no query.
    fn default() -> (u: Uri)
        ensures
            u@.path == seq!['/' as u8],
            u@.query is None,
    {
        Uri::root()
    }
}

} // verus!
