//! Ordered, duplicate-preserving header mapping.

use vstd::prelude::*;

use crate::component::Header;

verus! {

/// First value stored for `h`, if any.
pub open spec fn first_value(hs: Seq<(Header, Seq<u8>)>, h: Header) -> Option<Seq<u8>>
    decreases hs.len(),
{
    if hs.len() == 0 {
        None
    } else if hs[0].0 == h {
        Some(hs[0].1)
    } else {
        first_value(hs.drop_first(), h)
    }
}

/// Ordered header mapping; names come from the closed catalog (matched
/// case-insensitively at parse time) and duplicates keep insertion order.
#[derive(Clone, Debug)]
pub struct Headers {
    /// The `(name, value)` pairs in insertion order.
    pub pairs: Vec<(Header, Vec<u8>)>,
}

impl View for Headers {
    type V = Seq<(Header, Seq<u8>)>;

    open spec fn view(&self) -> Seq<(Header, Seq<u8>)> {
        self.pairs@.map_values(|p: (Header, Vec<u8>)| (p.0, p.1@))
    }
}

impl Headers {
    /// An empty header mapping.
    pub fn new() -> (r: Headers)
        ensures
            r@ == Seq::<(Header, Seq<u8>)>::empty(),
    {
        let r = Headers { pairs: Vec::new() };
        proof {
            assert(r@ =~= Seq::<(Header, Seq<u8>)>::empty());
        }
        r
    }

    /// Number of stored pairs.
    pub fn len(&self) -> (r: usize)
        ensures
            r == self@.len(),
    {
        self.pairs.len()
    }

    /// Appends a pair; earlier pairs, duplicates included, are kept.
    pub fn put(&mut self, header: Header, value: Vec<u8>)
        ensures
            final(self)@ == old(self)@.push((header, value@)),
    {
        let ghost pre = self@;
        self.pairs.push((header, value));
        proof {
            assert(self@ =~= pre.push((header, value@)));
        }
    }

    /// First value stored for `header`, if any.
    pub fn get(&self, header: Header) -> (r: Option<&Vec<u8>>)
        ensures
            match r {
                Some(v) => first_value(self@, header) == Some(v@),
                None => first_value(self@, header) is None,
            },
    {
        let mut i: usize = 0;
        while i < self.pairs.len()
            invariant
                i <= self.pairs.len(),
                forall|j: int| 0 <= j < i ==> self@[j].0 != header,
            decreases self.pairs.len() - i,
        {
            if self.pairs[i].0 == header {
                proof {
                    lemma_first_value_found(self@, header, i as int);
                }
                return Some(&self.pairs[i].1);
            }
            i += 1;
        }
        proof {
            lemma_first_value_absent(self@, header);
        }
        None
    }
}

impl Default for Headers {
    /// An empty header mapping.
    fn default() -> (r: Headers)
        ensures
            r@ == Seq::<(Header, Seq<u8>)>::empty(),
    {
        Headers::new()
    }
}

/// If nothing before `i` matches and pair `i` does, its value is the first.
proof fn lemma_first_value_found(hs: Seq<(Header, Seq<u8>)>, h: Header, i: int)
    requires
        0 <= i < hs.len(),
        hs[i].0 == h,
        forall|j: int| 0 <= j < i ==> hs[j].0 != h,
    ensures
        first_value(hs, h) == Some(hs[i].1),
    decreases i,
{
    if i == 0 {
    } else {
        assert forall|j: int| 0 <= j < i - 1 implies hs.drop_first()[j].0 != h by {
            assert(hs.drop_first()[j] == hs[j + 1]);
        }
        assert(hs.drop_first()[i - 1] == hs[i]);
        lemma_first_value_found(hs.drop_first(), h, i - 1);
    }
}

/// If no pair matches, no value is stored.
proof fn lemma_first_value_absent(hs: Seq<(Header, Seq<u8>)>, h: Header)
    requires
        forall|j: int| 0 <= j < hs.len() ==> hs[j].0 != h,
    ensures
        first_value(hs, h) is None,
    decreases hs.len(),
{
    if hs.len() == 0 {
    } else {
        assert forall|j: int| 0 <= j < hs.drop_first().len() implies hs.drop_first()[j].0 != h by {
            assert(hs.drop_first()[j] == hs[j + 1]);
        }
        lemma_first_value_absent(hs.drop_first(), h);
    }
}

} // verus!
