//! Percent-encoding and -decoding of URI components.
//!
//! Values are byte sequences. Encoding escapes every control byte and every
//! byte significant for the syntax of the chosen component; decoding is
//! total: a `%` that is not followed by two hex digits is passed through
//! unchanged rather than rejected.

use vstd::prelude::*;

verus! {

/// Encoding kind.
#[derive(Clone, Copy, Debug)]
pub enum Kind {
    /// Request path.
    Path,
    /// Query string.
    Query,
}

/// Bytes that must be escaped in the given component: all control bytes
/// (including DEL) and the component's syntax-significant set. The query
/// set is the path set minus `?`.
pub open spec fn must_escape(b: u8, kind: Kind) -> bool {
    ||| b < 0x20
    ||| b == 0x7f
    ||| b == ' ' as u8
    ||| b == '"' as u8
    ||| b == '#' as u8
    ||| b == '%' as u8
    ||| b == '<' as u8
    ||| b == '>' as u8
    ||| b == '[' as u8
    ||| b == ']' as u8
    ||| b == '^' as u8
    ||| b == '`' as u8
    ||| b == '{' as u8
    ||| b == '|' as u8
    ||| b == '}' as u8
    ||| b == '~' as u8
    ||| (b == '?' as u8 && kind is Path)
}

/// Upper-case hex digit for a value below 16.
pub open spec fn hex_digit(n: u8) -> u8 {
    if n < 10 {
        (48 + n) as u8
    } else {
        (55 + n) as u8
    }
}

/// The escaped form of one byte: `%XX` when it must be escaped, else itself.
pub open spec fn escape(b: u8, kind: Kind) -> Seq<u8> {
    if must_escape(b, kind) {
        seq!['%' as u8, hex_digit(b / 16), hex_digit(b % 16)]
    } else {
        seq![b]
    }
}

/// Percent-encoding of a byte sequence.
pub open spec fn encode_seq(s: Seq<u8>, kind: Kind) -> Seq<u8>
    decreases s.len(),
{
    if s.len() == 0 {
        seq![]
    } else {
        escape(s[0], kind) + encode_seq(s.drop_first(), kind)
    }
}

/// True for the bytes of ASCII hex digits, upper or lower case.
pub open spec fn is_hex(b: u8) -> bool {
    ||| 48 <= b <= 57
    ||| 65 <= b <= 70
    ||| 97 <= b <= 102
}

/// Value of an ASCII hex digit.
pub open spec fn hex_val(b: u8) -> u8 {
    if 48 <= b <= 57 {
        (b - 48) as u8
    } else if 65 <= b <= 70 {
        (b - 55) as u8
    } else {
        (b - 87) as u8
    }
}

/// Percent-decoding of a byte sequence; total. A valid `%XX` escape yields
/// the byte `XX`; any other byte, a stray `%` included, yields itself.
pub open spec fn decode_seq(s: Seq<u8>) -> Seq<u8>
    decreases s.len(),
{
    if s.len() == 0 {
        seq![]
    } else if s[0] == '%' as u8 && s.len() >= 3 && is_hex(s[1]) && is_hex(s[2]) {
        seq![(hex_val(s[1]) * 16 + hex_val(s[2])) as u8] + decode_seq(s.skip(3))
    } else {
        seq![s[0]] + decode_seq(s.skip(1))
    }
}

/// Encodes a byte string for safe inclusion in the given URI component.
pub fn encode(value: &[u8], kind: Kind) -> (r: Vec<u8>)
    ensures
        r@ == encode_seq(value@, kind),
{
    let mut out: Vec<u8> = Vec::new();
    let mut i: usize = 0;
    while i < value.len()
        invariant
            i <= value.len(),
            out@ == encode_seq(value@.take(i as int), kind),
        decreases value.len() - i,
    {
        let b = value[i];
        if b < 0x20 || b == 0x7f || b == ' ' as u8 || b == '"' as u8 || b == '#' as u8
            || b == '%' as u8 || b == '<' as u8 || b == '>' as u8 || b == '[' as u8
            || b == ']' as u8 || b == '^' as u8 || b == '`' as u8 || b == '{' as u8
            || b == '|' as u8 || b == '}' as u8 || b == '~' as u8
            || (b == '?' as u8 && matches!(kind, Kind::Path)) {
            out.push('%' as u8);
            let hi = b / 16;
            let lo = b % 16;
            out.push(if hi < 10 { 48 + hi } else { 55 + hi });
            out.push(if lo < 10 { 48 + lo } else { 55 + lo });
        } else {
            out.push(b);
        }
        proof {
            lemma_encode_take_step(value@, kind, i as int);
            assert(out@ =~= encode_seq(value@.take(i + 1), kind));
        }
        i += 1;
    }
    proof {
        assert(value@.take(value@.len() as int) =~= value@);
    }
    out
}

/// Unfolds one step of `encode_seq` over a growing prefix.
proof fn lemma_encode_take_step(s: Seq<u8>, kind: Kind, i: int)
    requires
        0 <= i < s.len(),
    ensures
        encode_seq(s.take(i + 1), kind) == encode_seq(s.take(i), kind) + escape(s[i], kind),
    decreases i,
{
    if i == 0 {
        assert(s.take(1) =~= seq![s[0]]);
        assert(s.take(1).drop_first() =~= Seq::<u8>::empty());
        assert(s.take(0) =~= Seq::<u8>::empty());
        assert(encode_seq(s.take(1), kind) =~= escape(s[0], kind));
        assert(encode_seq(s.take(0), kind) + escape(s[0], kind) =~= escape(s[0], kind));
    } else {
        lemma_encode_take_step(s.drop_first(), kind, i - 1);
        assert(s.take(i + 1).drop_first() =~= s.drop_first().take(i));
        assert(s.take(i).drop_first() =~= s.drop_first().take(i - 1));
        assert(s.drop_first()[i - 1] == s[i]);
        assert(encode_seq(s.take(i + 1), kind) == escape(s[0], kind) + encode_seq(
            s.drop_first().take(i),
            kind,
        ));
        assert(encode_seq(s.take(i), kind) == escape(s[0], kind) + encode_seq(
            s.drop_first().take(i - 1),
            kind,
        ));
        assert(encode_seq(s.take(i), kind) + escape(s[i], kind) =~= escape(s[0], kind) + (
        encode_seq(s.drop_first().take(i - 1), kind) + escape(s.drop_first()[i - 1], kind)));
    }
}

/// Decodes a percent-encoded byte string; never fails.
pub fn decode(value: &[u8]) -> (r: Vec<u8>)
    ensures
        r@ == decode_seq(value@),
{
    let mut out: Vec<u8> = Vec::new();
    let mut i: usize = 0;
    proof {
        assert(value@.skip(0) =~= value@);
        assert(out@ + decode_seq(value@) =~= decode_seq(value@));
    }
    while i < value.len()
        invariant
            i <= value.len(),
            decode_seq(value@) == out@ + decode_seq(value@.skip(i as int)),
        decreases value.len() - i,
    {
        let ghost pre = out@;
        let b = value[i];
        if b == '%' as u8 && value.len() - i >= 3 && hex_value(value[i + 1]).is_some()
            && hex_value(value[i + 2]).is_some() {
            let hi = hex_value(value[i + 1]).unwrap();
            let lo = hex_value(value[i + 2]).unwrap();
            out.push(hi * 16 + lo);
            proof {
                let rest = value@.skip(i as int);
                assert(rest[0] == value@[i as int]);
                assert(rest[1] == value@[i + 1]);
                assert(rest[2] == value@[i + 2]);
                assert(rest.skip(3) =~= value@.skip(i + 3));
                assert(decode_seq(rest) == seq![(hex_val(rest[1]) * 16 + hex_val(rest[2])) as u8]
                    + decode_seq(value@.skip(i + 3)));
                assert(out@ =~= pre + seq![(hex_val(rest[1]) * 16 + hex_val(rest[2])) as u8]);
            }
            i += 3;
        } else {
            out.push(b);
            proof {
                let rest = value@.skip(i as int);
                assert(rest[0] == value@[i as int]);
                if rest[0] == '%' as u8 && rest.len() >= 3 && is_hex(rest[1]) && is_hex(rest[2]) {
                    assert(rest[1] == value@[i + 1]);
                    assert(rest[2] == value@[i + 2]);
                    assert(false);
                }
                assert(rest.skip(1) =~= value@.skip(i + 1));
                assert(out@ =~= pre + seq![rest[0]]);
            }
            i += 1;
        }
    }
    proof {
        assert(value@.skip(value@.len() as int) =~= Seq::<u8>::empty());
        assert(out@ =~= out@ + decode_seq(value@.skip(value@.len() as int)));
    }
    out
}

/// Value of an ASCII hex digit, upper or lower case.
fn hex_value(b: u8) -> (r: Option<u8>)
    ensures
        r.is_some() == is_hex(b),
        r.is_some() ==> r.unwrap() == hex_val(b),
{
    if 48 <= b && b <= 57 {
        Some(b - 48)
    } else if 65 <= b && b <= 70 {
        Some(b - 55)
    } else if 97 <= b && b <= 102 {
        Some(b - 87)
    } else {
        None
    }
}

/// The text that a byte sequence reads as: its UTF-8 decoding, with every
/// invalid sequence replaced by the Unicode replacement character.
pub uninterp spec fn lossy_of(bytes: Seq<u8>) -> Seq<char>;

/// Relies on `String::from_utf8_lossy`: the result depends on the bytes
/// alone, decoding them as UTF-8 with invalid sequences replaced by the
/// Unicode replacement character.
#[verifier::external_body]
fn utf8_lossy(v: &[u8]) -> (r: String)
    ensures
        r@ == lossy_of(v@),
{
    String::from_utf8_lossy(v).into_owned()
}

/// Decodes a percent-encoded byte string and reads it as text; total:
/// invalid UTF-8 in the decoded bytes becomes the Unicode replacement
/// character rather than an error.
pub fn decode_text(value: &[u8]) -> (r: String)
    ensures
        r@ == lossy_of(decode_seq(value@)),
{
    let d = decode(value);
    utf8_lossy(d.as_slice())
}

/// Law: decoding inverts encoding. For every byte string and either
/// component kind, percent-decoding the percent-encoding gives back the
/// original bytes; since decoding is a total function, it in particular
/// never fails on the encoder's output or on arbitrary percent-sequences.
pub proof fn lemma_decode_encode(s: Seq<u8>, kind: Kind)
    ensures
        decode_seq(encode_seq(s, kind)) == s,
    decreases s.len(),
{
    if s.len() == 0 {
        assert(decode_seq(encode_seq(s, kind)) =~= s);
    } else {
        lemma_decode_encode(s.drop_first(), kind);
        let b = s[0];
        let e = encode_seq(s, kind);
        let rest = encode_seq(s.drop_first(), kind);
        if must_escape(b, kind) {
            assert(e == seq!['%' as u8, hex_digit(b / 16), hex_digit(b % 16)] + rest);
            assert(e[0] == '%' as u8);
            assert(e[1] == hex_digit(b / 16));
            assert(e[2] == hex_digit(b % 16));
            assert(is_hex(hex_digit(b / 16)));
            assert(is_hex(hex_digit(b % 16)));
            assert(hex_val(hex_digit(b / 16)) == b / 16);
            assert(hex_val(hex_digit(b % 16)) == b % 16);
            assert(e.skip(3) =~= rest);
            assert((hex_val(e[1]) * 16 + hex_val(e[2])) as u8 == b);
            assert(decode_seq(e) == seq![b] + decode_seq(rest));
            assert(seq![b] + s.drop_first() =~= s);
        } else {
            assert(e == seq![b] + rest);
            assert(e[0] == b);
            assert(b != '%' as u8);
            assert(e.skip(1) =~= rest);
            assert(decode_seq(e) == seq![b] + decode_seq(rest));
            assert(seq![b] + s.drop_first() =~= s);
        }
    }
}

/// Decoding never lengthens a byte string.
pub proof fn lemma_decode_len(s: Seq<u8>)
    ensures
        decode_seq(s).len() <= s.len(),
    decreases s.len(),
{
    if s.len() == 0 {
    } else if s[0] == '%' as u8 && s.len() >= 3 && is_hex(s[1]) && is_hex(s[2]) {
        lemma_decode_len(s.skip(3));
    } else {
        lemma_decode_len(s.skip(1));
    }
}

} // verus!
