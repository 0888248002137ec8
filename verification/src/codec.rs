//! The stable binary encoding used by every index file.
//!
//! All index blobs — postings runs, term dictionaries and the document
//! store — are built from three primitives: little-endian `u32`, little-endian
//! `u64`, and character strings written as a `u64` length followed by one
//! little-endian `u32` Unicode scalar per character.  The encoding is an
//! internal contract of this crate: the only promise is that it round-trips
//! through this module's own encoder/decoder pair, which is proved below.
//!
//! Spec-level encoders are total functions on sequences; spec-level decoders
//! parse from a position and say exactly which byte strings are accepted.
//! Each executable function is proved to compute its spec counterpart.

use vstd::prelude::*;
use vstd::bytes::lemma_auto_spec_u32_to_from_le_bytes;
use vstd::bytes::lemma_auto_spec_u64_to_from_le_bytes;
use vstd::bytes::spec_u32_from_le_bytes;
use vstd::bytes::spec_u32_to_le_bytes;
use vstd::bytes::spec_u64_from_le_bytes;
use vstd::bytes::spec_u64_to_le_bytes;
use vstd::bytes::u32_from_le_bytes;
use vstd::bytes::u32_to_le_bytes;
use vstd::bytes::u64_from_le_bytes;
use vstd::bytes::u64_to_le_bytes;
use vstd::slice::slice_subrange;

verus! {

/// True when `x` is a Unicode scalar value, i.e. the numeric value of some
/// `char`: at most `0x10FFFF` and not a surrogate.
pub open spec fn valid_scalar(x: u32) -> bool {
    x <= 0x10FFFF && !(0xD800 <= x <= 0xDFFF)
}

/// Every `char`, seen as a number, is a valid Unicode scalar.
pub proof fn lemma_char_valid_scalar(c: char)
    ensures
        valid_scalar(c as u32),
{
    vstd::utf8::char_is_scalar(c);
}

/// Casting a `char` to `u32` and back yields the same `char`.
pub proof fn lemma_char_u32_roundtrip(c: char)
    ensures
        ((c as u32) as char) == c,
{
    vstd::utf8::char_u32_cast(c, c as u32);
}

// ---------------------------------------------------------------------------
// Spec-level encoders
// ---------------------------------------------------------------------------

/// Characters one after another, four little-endian bytes each.
pub open spec fn enc_chars(s: Seq<char>) -> Seq<u8>
    decreases s.len(),
{
    if s.len() == 0 {
        Seq::<u8>::empty()
    } else {
        spec_u32_to_le_bytes(s[0] as u32) + enc_chars(s.drop_first())
    }
}

/// A string: its length as a little-endian `u64`, then its characters.
pub open spec fn enc_str(s: Seq<char>) -> Seq<u8> {
    spec_u64_to_le_bytes(s.len() as u64) + enc_chars(s)
}

// ---------------------------------------------------------------------------
// Spec-level decoders
// ---------------------------------------------------------------------------

/// Parses a little-endian `u64` at `pos`; yields the value and the position
/// after it.
pub open spec fn dec_u64(b: Seq<u8>, pos: int) -> Option<(u64, int)> {
    if 0 <= pos && pos + 8 <= b.len() {
        Some((spec_u64_from_le_bytes(b.subrange(pos, pos + 8)), pos + 8))
    } else {
        None
    }
}

/// Parses a little-endian `u32` at `pos`.
pub open spec fn dec_u32(b: Seq<u8>, pos: int) -> Option<(u32, int)> {
    if 0 <= pos && pos + 4 <= b.len() {
        Some((spec_u32_from_le_bytes(b.subrange(pos, pos + 4)), pos + 4))
    } else {
        None
    }
}

/// Parses one character: a `u32` that must be a valid Unicode scalar.
pub open spec fn dec_char(b: Seq<u8>, pos: int) -> Option<(char, int)> {
    match dec_u32(b, pos) {
        Some((x, p)) => if valid_scalar(x) {
            Some((x as char, p))
        } else {
            None
        },
        None => None,
    }
}

/// Parses exactly `n` characters starting at `pos`.
pub open spec fn dec_chars(b: Seq<u8>, pos: int, n: int) -> Option<(Seq<char>, int)>
    decreases n,
{
    if n <= 0 {
        Some((Seq::<char>::empty(), pos))
    } else {
        match dec_char(b, pos) {
            Some((c, p1)) => match dec_chars(b, p1, n - 1) {
                Some((s, p2)) => Some((seq![c] + s, p2)),
                None => None,
            },
            None => None,
        }
    }
}

/// Parses a length-prefixed string.
pub open spec fn dec_str(b: Seq<u8>, pos: int) -> Option<(Seq<char>, int)> {
    match dec_u64(b, pos) {
        Some((n, p)) => dec_chars(b, p, n as int),
        None => None,
    }
}

// ---------------------------------------------------------------------------
// Lengths and append laws of the encoders
// ---------------------------------------------------------------------------

pub proof fn lemma_enc_chars_len(s: Seq<char>)
    ensures
        enc_chars(s).len() == 4 * s.len(),
    decreases s.len(),
{
    lemma_auto_spec_u32_to_from_le_bytes();
    if s.len() > 0 {
        assert(spec_u32_to_le_bytes(s[0] as u32).len() == 4);
        lemma_enc_chars_len(s.drop_first());
    }
}

/// Appending one character to a string appends its four bytes to the encoding.
pub proof fn lemma_enc_chars_push(s: Seq<char>, c: char)
    ensures
        enc_chars(s.push(c)) == enc_chars(s) + spec_u32_to_le_bytes(c as u32),
    decreases s.len(),
{
    lemma_auto_spec_u32_to_from_le_bytes();
    assert(spec_u32_to_le_bytes(c as u32).len() == 4);
    reveal_with_fuel(enc_chars, 3);
    if s.len() == 0 {
        assert(s.push(c)[0] == c);
        assert(s.push(c).drop_first() =~= Seq::<char>::empty());
        assert(enc_chars(s.push(c)) =~= enc_chars(s) + spec_u32_to_le_bytes(c as u32));
    } else {
        assert(s.push(c).drop_first() =~= s.drop_first().push(c));
        lemma_enc_chars_push(s.drop_first(), c);
        assert(enc_chars(s.push(c)) =~= enc_chars(s) + spec_u32_to_le_bytes(c as u32));
    }
}

// ---------------------------------------------------------------------------
// Round trips: decoding an encoding embedded in a larger buffer
// ---------------------------------------------------------------------------

/// A `u64` encoding sitting at `pos` in a buffer decodes to the value written.
pub proof fn lemma_dec_u64_of_enc(b: Seq<u8>, pos: int, v: u64)
    requires
        0 <= pos,
        pos + 8 <= b.len(),
        b.subrange(pos, pos + 8) == spec_u64_to_le_bytes(v),
    ensures
        dec_u64(b, pos) == Some((v, pos + 8)),
{
    lemma_auto_spec_u64_to_from_le_bytes();
    assert(spec_u64_to_le_bytes(v).len() == 8);
    assert(spec_u64_from_le_bytes(spec_u64_to_le_bytes(v)) == v);
}

/// A `u32` encoding sitting at `pos` in a buffer decodes to the value written.
pub proof fn lemma_dec_u32_of_enc(b: Seq<u8>, pos: int, v: u32)
    requires
        0 <= pos,
        pos + 4 <= b.len(),
        b.subrange(pos, pos + 4) == spec_u32_to_le_bytes(v),
    ensures
        dec_u32(b, pos) == Some((v, pos + 4)),
{
    lemma_auto_spec_u32_to_from_le_bytes();
    assert(spec_u32_to_le_bytes(v).len() == 4);
    assert(spec_u32_from_le_bytes(spec_u32_to_le_bytes(v)) == v);
    assert(spec_u32_from_le_bytes(b.subrange(pos, pos + 4)) == v);
}

/// A character run written by `enc_chars` decodes back to the same characters.
pub proof fn lemma_dec_chars_of_enc(b: Seq<u8>, pos: int, s: Seq<char>)
    requires
        0 <= pos,
        pos + 4 * s.len() <= b.len(),
        b.subrange(pos, pos + 4 * s.len()) == enc_chars(s),
    ensures
        dec_chars(b, pos, s.len() as int) == Some((s, pos + 4 * s.len())),
    decreases s.len(),
{
    if s.len() == 0 {
        assert(dec_chars(b, pos, 0) == Some((Seq::<char>::empty(), pos)));
        assert(s =~= Seq::<char>::empty());
    } else {
        let c = s[0];
        let rest = s.drop_first();
        lemma_auto_spec_u32_to_from_le_bytes();
        assert(spec_u32_to_le_bytes(c as u32).len() == 4);
        lemma_enc_chars_len(rest);
        assert(b.subrange(pos, pos + 4) =~= enc_chars(s).subrange(0, 4));
        assert(enc_chars(s).subrange(0, 4) =~= spec_u32_to_le_bytes(c as u32));
        lemma_dec_u32_of_enc(b, pos, c as u32);
        lemma_char_valid_scalar(c);
        lemma_char_u32_roundtrip(c);
        assert(b.subrange(pos + 4, pos + 4 + 4 * rest.len()) =~= enc_chars(s).subrange(
            4,
            4 + 4 * rest.len() as int,
        ));
        assert(enc_chars(s).subrange(4, 4 + 4 * rest.len() as int) =~= enc_chars(rest));
        lemma_dec_chars_of_enc(b, pos + 4, rest);
        assert(seq![c] + rest =~= s);
    }
}

/// A string written by `enc_str` decodes back to the same string.
pub proof fn lemma_dec_str_of_enc(b: Seq<u8>, pos: int, s: Seq<char>)
    requires
        0 <= pos,
        s.len() < 0x1_0000_0000_0000_0000,
        pos + 8 + 4 * s.len() <= b.len(),
        b.subrange(pos, pos + 8 + 4 * s.len()) == enc_str(s),
    ensures
        dec_str(b, pos) == Some((s, pos + 8 + 4 * s.len())),
{
    lemma_enc_chars_len(s);
    assert(b.subrange(pos, pos + 8) =~= enc_str(s).subrange(0, 8));
    assert(enc_str(s).subrange(0, 8) =~= spec_u64_to_le_bytes(s.len() as u64));
    lemma_dec_u64_of_enc(b, pos, s.len() as u64);
    assert(b.subrange(pos + 8, pos + 8 + 4 * s.len()) =~= enc_str(s).subrange(
        8,
        8 + 4 * s.len() as int,
    ));
    assert(enc_str(s).subrange(8, 8 + 4 * s.len() as int) =~= enc_chars(s));
    lemma_dec_chars_of_enc(b, pos + 8, s);
}

// ---------------------------------------------------------------------------
// Executable encoders
// ---------------------------------------------------------------------------

/// Appends the little-endian bytes of `v` to `out`.
pub fn write_u64(out: &mut Vec<u8>, v: u64)
    ensures
        final(out)@ == old(out)@ + spec_u64_to_le_bytes(v),
{
    let mut bs = u64_to_le_bytes(v);
    out.append(&mut bs);
}

/// Appends the little-endian bytes of `v` to `out`.
pub fn write_u32(out: &mut Vec<u8>, v: u32)
    ensures
        final(out)@ == old(out)@ + spec_u32_to_le_bytes(v),
{
    let mut bs = u32_to_le_bytes(v);
    out.append(&mut bs);
}

/// Appends the length-prefixed encoding of `s` to `out`.
pub fn write_str(out: &mut Vec<u8>, s: &str)
    ensures
        final(out)@ == old(out)@ + enc_str(s@),
{
    let n = s.unicode_len();
    write_u64(out, n as u64);
    let ghost base = out@;
    let mut i: usize = 0;
    while i < n
        invariant
            i <= n,
            n == s@.len(),
            out@ == base + enc_chars(s@.subrange(0, i as int)),
        decreases n - i,
    {
        let c = s.get_char(i);
        write_u32(out, c as u32);
        proof {
            assert(s@.subrange(0, i + 1) =~= s@.subrange(0, i as int).push(s@[i as int]));
            lemma_enc_chars_push(s@.subrange(0, i as int), s@[i as int]);
        }
        i = i + 1;
    }
    proof {
        assert(s@.subrange(0, n as int) =~= s@);
    }
}

// ---------------------------------------------------------------------------
// Executable decoders
// ---------------------------------------------------------------------------

/// True when the executable parse `r` reports the same outcome as the spec
/// parse `m`: both fail, or both yield the same value and stop at the same
/// position.
pub open spec fn parses_to<T>(r: Option<(T, usize)>, m: Option<(T, int)>) -> bool {
    match r {
        Some((v, p)) => m == Some((v, p as int)),
        None => m is None,
    }
}

/// Reads a little-endian `u64` at `pos`.
pub fn read_u64(bytes: &Vec<u8>, pos: usize) -> (r: Option<(u64, usize)>)
    ensures
        parses_to(r, dec_u64(bytes@, pos as int)),
{
    if pos <= bytes.len() && bytes.len() - pos >= 8 {
        let s = slice_subrange(bytes.as_slice(), pos, pos + 8);
        let v = u64_from_le_bytes(s);
        Some((v, pos + 8))
    } else {
        None
    }
}

/// Reads a little-endian `u32` at `pos`.
pub fn read_u32(bytes: &Vec<u8>, pos: usize) -> (r: Option<(u32, usize)>)
    ensures
        parses_to(r, dec_u32(bytes@, pos as int)),
{
    if pos <= bytes.len() && bytes.len() - pos >= 4 {
        let s = slice_subrange(bytes.as_slice(), pos, pos + 4);
        let v = u32_from_le_bytes(s);
        Some((v, pos + 4))
    } else {
        None
    }
}

/// Relies on `char::from_u32` from std: it returns `Some` exactly on valid
/// Unicode scalar values, and the resulting `char` has the given value.
#[verifier::external_body]
fn char_from_u32(x: u32) -> (r: Option<char>)
    ensures
        r is Some <==> valid_scalar(x),
        r matches Some(c) ==> c as u32 == x,
{
    char::from_u32(x)
}

/// Reads one character at `pos`.
pub fn read_char(bytes: &Vec<u8>, pos: usize) -> (r: Option<(char, usize)>)
    ensures
        parses_to(r, dec_char(bytes@, pos as int)),
{
    match read_u32(bytes, pos) {
        Some((x, p)) => match char_from_u32(x) {
            Some(c) => {
                proof {
                    lemma_char_u32_roundtrip(c);
                }
                Some((c, p))
            },
            None => None,
        },
        None => None,
    }
}

/// Reads a length-prefixed string at `pos`.
pub fn read_str(bytes: &Vec<u8>, pos: usize) -> (r: Option<(String, usize)>)
    ensures
        match r {
            Some((v, p)) => dec_str(bytes@, pos as int) == Some((v@, p as int)),
            None => dec_str(bytes@, pos as int) is None,
        },
{
    let (n, start) = match read_u64(bytes, pos) {
        Some(x) => x,
        None => {
            return None;
        },
    };
    let mut chars: Vec<char> = Vec::new();
    let mut cur: usize = start;
    let mut i: u64 = 0;
    while i < n
        invariant
            i <= n,
            dec_u64(bytes@, pos as int) == Some((n, start as int)),
            dec_chars(bytes@, start as int, n as int) == (match dec_chars(
                bytes@,
                cur as int,
                (n - i) as int,
            ) {
                Some((s, p)) => Some((chars@ + s, p)),
                None => None::<(Seq<char>, int)>,
            }),
        decreases n - i,
    {
        match read_char(bytes, cur) {
            Some((c, p)) => {
                proof {
                    let tail = dec_chars(bytes@, p as int, (n - i - 1) as int);
                    if tail is Some {
                        let (s, q) = tail->Some_0;
                        assert(chars@ + (seq![c] + s) =~= chars@.push(c) + s);
                    }
                }
                chars.push(c);
                cur = p;
            },
            None => {
                proof {
                    assert(dec_chars(bytes@, cur as int, (n - i) as int) is None);
                }
                return None;
            },
        }
        i = i + 1;
    }
    proof {
        assert(chars@ + Seq::<char>::empty() =~= chars@);
    }
    let s = chars_to_string(&chars);
    Some((s, cur))
}

/// Relies on `String::from_iter` over `char` from std: it collects exactly
/// the given characters, in order, into a string.
#[verifier::external_body]
fn chars_to_string(chars: &Vec<char>) -> (r: String)
    ensures
        r@ == chars@,
{
    chars.iter().collect()
}

} // verus!
