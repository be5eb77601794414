//! Small helpers on byte slices and byte vectors shared by the whole crate.

use vstd::prelude::*;

verus! {

/// Byte-for-byte equality of two byte slices.
pub fn bytes_eq(a: &[u8], b: &[u8]) -> (r: bool)
    ensures
        r == (a@ == b@),
{
    if a.len() != b.len() {
        return false;
    }
    let mut i: usize = 0;
    while i < a.len()
        invariant
            i <= a.len(),
            a@.len() == b@.len(),
            forall|j: int| 0 <= j < i ==> a@[j] == b@[j],
        decreases a.len() - i,
    {
        if a[i] != b[i] {
            return false;
        }
        i += 1;
    }
    proof {
        assert(a@ =~= b@);
    }
    true
}

/// True when `sub` occurs in `s` starting at position `at`.
pub open spec fn occurs_at(s: Seq<u8>, sub: Seq<u8>, at: int) -> bool {
    &&& 0 <= at
    &&& at + sub.len() <= s.len()
    &&& s.subrange(at, at + sub.len()) == sub
}

/// True when `sub` occurs somewhere in `s`.
pub open spec fn contains_seq(s: Seq<u8>, sub: Seq<u8>) -> bool {
    exists|at: int| occurs_at(s, sub, at)
}

/// Slice search for a two-byte pattern; decides `contains_seq` for it.
pub fn contains2(s: &[u8], b0: u8, b1: u8) -> (r: bool)
    ensures
        r == contains_seq(s@, seq![b0, b1]),
{
    if s.len() < 2 {
        proof {
            assert forall|at: int| !occurs_at(s@, seq![b0, b1], at) by {}
        }
        return false;
    }
    let mut i: usize = 0;
    while i + 1 < s.len()
        invariant
            i + 1 <= s.len(),
            s@.len() >= 2,
            forall|at: int| 0 <= at < i ==> !occurs_at(s@, seq![b0, b1], at),
        decreases s.len() - i,
    {
        if s[i] == b0 && s[i + 1] == b1 {
            proof {
                assert(s@.subrange(i as int, i + 2) =~= seq![b0, b1]);
                assert(occurs_at(s@, seq![b0, b1], i as int));
            }
            return true;
        }
        proof {
            if occurs_at(s@, seq![b0, b1], i as int) {
                assert(s@.subrange(i as int, i + 2)[0] == b0);
                assert(s@.subrange(i as int, i + 2)[1] == b1);
            }
        }
        i += 1;
    }
    proof {
        assert forall|at: int| !occurs_at(s@, seq![b0, b1], at) by {
            if 0 <= at && at + 2 <= s@.len() {
                assert(at < i);
            }
        }
    }
    false
}

/// Position of the first occurrence of `sep` in `s`, or `-1` if absent.
pub open spec fn first_index(s: Seq<u8>, sep: u8) -> int
    decreases s.len(),
{
    if s.len() == 0 {
        -1
    } else if s[0] == sep {
        0
    } else {
        let r = first_index(s.drop_first(), sep);
        if r < 0 {
            -1
        } else {
            r + 1
        }
    }
}

/// `first_index` finds exactly the first occurrence.
pub proof fn lemma_first_index_found(s: Seq<u8>, sep: u8, k: int)
    requires
        0 <= k < s.len(),
        s[k] == sep,
        forall|j: int| 0 <= j < k ==> s[j] != sep,
    ensures
        first_index(s, sep) == k,
    decreases k,
{
    if k == 0 {
    } else {
        assert(s[0] != sep);
        assert forall|j: int| 0 <= j < k - 1 implies s.drop_first()[j] != sep by {
            assert(s.drop_first()[j] == s[j + 1]);
        }
        assert(s.drop_first()[k - 1] == s[k]);
        lemma_first_index_found(s.drop_first(), sep, k - 1);
    }
}

/// `first_index` reports absence faithfully.
pub proof fn lemma_first_index_none(s: Seq<u8>, sep: u8)
    requires
        forall|j: int| 0 <= j < s.len() ==> s[j] != sep,
    ensures
        first_index(s, sep) == -1,
    decreases s.len(),
{
    if s.len() == 0 {
    } else {
        assert forall|j: int| 0 <= j < s.drop_first().len() implies s.drop_first()[j] != sep by {
            assert(s.drop_first()[j] == s[j + 1]);
        }
        lemma_first_index_none(s.drop_first(), sep);
    }
}

/// Basic facts about `first_index`: in range, hits `sep`, nothing earlier.
pub proof fn lemma_first_index_props(s: Seq<u8>, sep: u8)
    ensures
        first_index(s, sep) == -1 || (0 <= first_index(s, sep) < s.len() && s[first_index(s, sep)]
            == sep && forall|j: int| 0 <= j < first_index(s, sep) ==> s[j] != sep),
    decreases s.len(),
{
    if s.len() == 0 {
    } else if s[0] == sep {
    } else {
        lemma_first_index_props(s.drop_first(), sep);
        let r = first_index(s.drop_first(), sep);
        if r >= 0 {
            assert forall|j: int| 0 <= j < r + 1 implies s[j] != sep by {
                if j > 0 {
                    assert(s.drop_first()[j - 1] == s[j]);
                }
            }
        }
    }
}

/// Finds the first occurrence of a byte in a slice.
pub fn find_byte(s: &[u8], sep: u8) -> (r: Option<usize>)
    ensures
        match r {
            Some(k) => first_index(s@, sep) == k as int,
            None => first_index(s@, sep) == -1,
        },
{
    let mut i: usize = 0;
    while i < s.len()
        invariant
            i <= s.len(),
            forall|j: int| 0 <= j < i ==> s@[j] != sep,
        decreases s.len() - i,
    {
        if s[i] == sep {
            proof {
                lemma_first_index_found(s@, sep, i as int);
            }
            return Some(i);
        }
        i += 1;
    }
    proof {
        lemma_first_index_none(s@, sep);
    }
    None
}

/// The views of a sequence of byte vectors.
pub open spec fn views(vs: Seq<Vec<u8>>) -> Seq<Seq<u8>> {
    vs.map_values(|v: Vec<u8>| v@)
}

/// Splits `s` on every occurrence of `sep`. The separators themselves are
/// dropped; `n` separators yield `n + 1` pieces, empty pieces included.
pub open spec fn split_seq(s: Seq<u8>, sep: u8) -> Seq<Seq<u8>>
    decreases s.len(),
{
    let k = first_index(s, sep);
    if k < 0 || k >= s.len() {
        seq![s]
    } else {
        seq![s.take(k)] + split_seq(s.skip(k + 1), sep)
    }
}

/// Splits a byte slice on every occurrence of `sep`.
pub fn split_bytes(s: &[u8], sep: u8) -> (r: Vec<Vec<u8>>)
    ensures
        views(r@) == split_seq(s@, sep),
{
    let mut acc: Vec<Vec<u8>> = Vec::new();
    let mut cur: Vec<u8> = Vec::new();
    let ghost mut start: int = 0;
    let mut i: usize = 0;
    proof {
        assert(s@.skip(0) =~= s@);
        assert(views(acc@) + split_seq(s@, sep) =~= split_seq(s@, sep));
    }
    while i < s.len()
        invariant
            0 <= start <= i <= s.len(),
            cur@ == s@.subrange(start, i as int),
            forall|j: int| start <= j < i ==> s@[j] != sep,
            split_seq(s@, sep) == views(acc@) + split_seq(s@.skip(start), sep),
        decreases s.len() - i,
    {
        if s[i] == sep {
            proof {
                let rest = s@.skip(start);
                assert forall|j: int| 0 <= j < i - start implies rest[j] != sep by {
                    assert(rest[j] == s@[start + j]);
                }
                assert(rest[i - start] == s@[i as int]);
                lemma_first_index_found(rest, sep, i - start);
                assert(rest.take(i - start) =~= s@.subrange(start, i as int));
                assert(rest.skip(i - start + 1) =~= s@.skip(i + 1));
                assert(split_seq(rest, sep) == seq![cur@] + split_seq(s@.skip(i + 1), sep));
            }
            let ghost accv = acc@;
            acc.push(cur);
            cur = Vec::new();
            proof {
                assert(views(acc@) =~= views(accv).push(s@.subrange(start, i as int)));
                assert(views(accv).push(s@.subrange(start, i as int)) =~= views(accv) + seq![
                    s@.subrange(start, i as int),
                ]);
                start = i + 1;
                assert(cur@ =~= s@.subrange(start, i + 1));
            }
        } else {
            cur.push(s[i]);
            proof {
                assert(cur@ =~= s@.subrange(start, i + 1));
            }
        }
        i += 1;
    }
    proof {
        let rest = s@.skip(start);
        assert forall|j: int| 0 <= j < rest.len() implies rest[j] != sep by {
            assert(rest[j] == s@[start + j]);
        }
        lemma_first_index_none(rest, sep);
        assert(rest =~= s@.subrange(start, s@.len() as int));
        assert(split_seq(rest, sep) == seq![cur@]);
    }
    let ghost accv = acc@;
    acc.push(cur);
    proof {
        assert(views(acc@) =~= views(accv) + seq![s@.subrange(start, s@.len() as int)]);
    }
    acc
}

/// Appends the bytes of a slice to a vector.
pub fn append_bytes(out: &mut Vec<u8>, s: &[u8])
    ensures
        final(out)@ == old(out)@ + s@,
{
    let ghost pre = out@;
    let mut i: usize = 0;
    while i < s.len()
        invariant
            pre == old(out)@,
            i <= s.len(),
            out@ == pre + s@.take(i as int),
        decreases s.len() - i,
    {
        out.push(s[i]);
        proof {
            assert(pre + s@.take(i + 1) =~= (pre + s@.take(i as int)).push(s@[i as int]));
        }
        i += 1;
    }
    proof {
        assert(pre + s@.take(s@.len() as int) =~= pre + s@);
    }
}

/// Decimal digit sequence of a natural number, most significant digit first.
pub open spec fn dec_digits(n: nat) -> Seq<u8>
    decreases n,
{
    if n < 10 {
        seq![(48 + n) as u8]
    } else {
        dec_digits(n / 10).push((48 + n % 10) as u8)
    }
}

/// Formats a number in decimal, as the bytes of its digit string.
pub fn format_usize(n: usize) -> (r: Vec<u8>)
    ensures
        r@ == dec_digits(n as nat),
    decreases n,
{
    if n < 10 {
        let mut v: Vec<u8> = Vec::new();
        v.push(48 + (n as u8));
        proof {
            assert(v@ =~= dec_digits(n as nat));
        }
        v
    } else {
        let mut v = format_usize(n / 10);
        v.push(48 + ((n % 10) as u8));
        v
    }
}

} // verus!
