//! The on-disk segment: an immutable term dictionary plus a packed postings
//! file, both held here as byte blobs and decoded structures.
//!
//! The dictionary maps each term to `{df, postings_offset, postings_len}`;
//! the byte range `[postings_offset, postings_offset + postings_len)` of the
//! postings file decodes to that term's postings run.  A well-formed segment
//! has its dictionary in strictly ascending term order, every byte range in
//! bounds, and every run decoding to exactly `df` postings in ascending
//! `doc_id` order, all referring to documents the store knows.
//!
//! `load_segment` decides exactly that: a segment whose files do not parse
//! and validate is reported to the caller, which skips it.

use vstd::prelude::*;
use crate::codec::dec_str;
use crate::codec::dec_u32;
use crate::codec::dec_u64;
use crate::codec::enc_str;
use crate::codec::lemma_dec_str_of_enc;
use crate::codec::lemma_dec_u32_of_enc;
use crate::codec::lemma_dec_u64_of_enc;
use crate::codec::lemma_enc_chars_len;
use crate::codec::read_str;
use crate::codec::read_u32;
use crate::codec::read_u64;
use crate::codec::write_str;
use crate::codec::write_u32;
use crate::codec::write_u64;
use crate::order::lex_lt;
use crate::order::str_lex_lt;
use crate::segment::Posting;
use vstd::bytes::spec_u32_to_le_bytes;
use vstd::bytes::spec_u64_to_le_bytes;
use vstd::slice::slice_subrange;
use vstd::slice::slice_to_vec;

verus! {

/// Dictionary metadata for one term within one segment.
#[derive(Clone, Copy, PartialEq, Eq, Structural, Debug)]
pub struct TermInfo {
    /// Number of documents of this segment that contain the term.
    pub df: u32,
    /// Byte offset of the term's postings run in the postings file.
    pub postings_offset: u64,
    /// Byte length of the term's postings run.
    pub postings_len: u64,
}

/// One dictionary entry: a term and its metadata.
pub struct DictEntry {
    pub term: String,
    pub info: TermInfo,
}

/// The mathematical value of a `DictEntry`.
pub struct DictEntryView {
    pub term: Seq<char>,
    pub info: TermInfo,
}

impl View for DictEntry {
    type V = DictEntryView;

    open spec fn view(&self) -> DictEntryView {
        DictEntryView { term: self.term@, info: self.info }
    }
}

/// The entry views of a dictionary vector.
pub open spec fn dict_views(v: Seq<DictEntry>) -> Seq<DictEntryView> {
    v.map_values(|e: DictEntry| e@)
}

// ---------------------------------------------------------------------------
// Postings runs
// ---------------------------------------------------------------------------

/// One posting: its document id, then its term frequency.
pub open spec fn enc_posting(p: Posting) -> Seq<u8> {
    spec_u64_to_le_bytes(p.doc_id) + spec_u32_to_le_bytes(p.tf)
}

/// Postings one after another.
pub open spec fn enc_posting_seq(ps: Seq<Posting>) -> Seq<u8>
    decreases ps.len(),
{
    if ps.len() == 0 {
        Seq::<u8>::empty()
    } else {
        enc_posting(ps[0]) + enc_posting_seq(ps.drop_first())
    }
}

/// A postings run: the posting count, then the postings.
pub open spec fn enc_postings(ps: Seq<Posting>) -> Seq<u8> {
    spec_u64_to_le_bytes(ps.len() as u64) + enc_posting_seq(ps)
}

/// Parses one posting at `pos`.
pub open spec fn dec_posting(b: Seq<u8>, pos: int) -> Option<(Posting, int)> {
    match dec_u64(b, pos) {
        Some((doc_id, p1)) => match dec_u32(b, p1) {
            Some((tf, p2)) => Some(((Posting { doc_id, tf }), p2)),
            None => None,
        },
        None => None,
    }
}

/// Parses exactly `n` postings at `pos`.
pub open spec fn dec_posting_seq(b: Seq<u8>, pos: int, n: int) -> Option<(Seq<Posting>, int)>
    decreases n,
{
    if n <= 0 {
        Some((Seq::<Posting>::empty(), pos))
    } else {
        match dec_posting(b, pos) {
            Some((p, p1)) => match dec_posting_seq(b, p1, n - 1) {
                Some((ps, p2)) => Some((seq![p] + ps, p2)),
                None => None,
            },
            None => None,
        }
    }
}

/// Which byte strings are accepted as one postings run: a count, that many
/// postings, and nothing after them.
pub open spec fn dec_postings(b: Seq<u8>) -> Option<Seq<Posting>> {
    match dec_u64(b, 0) {
        Some((n, p)) => match dec_posting_seq(b, p, n as int) {
            Some((ps, q)) => if q == b.len() {
                Some(ps)
            } else {
                None
            },
            None => None,
        },
        None => None,
    }
}

/// Appending one posting appends its twelve bytes.
pub proof fn lemma_enc_posting_seq_push(ps: Seq<Posting>, p: Posting)
    ensures
        enc_posting_seq(ps.push(p)) == enc_posting_seq(ps) + enc_posting(p),
    decreases ps.len(),
{
    reveal_with_fuel(enc_posting_seq, 3);
    if ps.len() == 0 {
        assert(ps.push(p)[0] == p);
        assert(ps.push(p).drop_first() =~= Seq::<Posting>::empty());
        assert(enc_posting_seq(ps.push(p)) =~= enc_posting_seq(ps) + enc_posting(p));
    } else {
        assert(ps.push(p).drop_first() =~= ps.drop_first().push(p));
        lemma_enc_posting_seq_push(ps.drop_first(), p);
        assert(enc_posting_seq(ps.push(p)) =~= enc_posting_seq(ps) + enc_posting(p));
    }
}

/// Each posting takes twelve bytes.
pub proof fn lemma_enc_posting_seq_len(ps: Seq<Posting>)
    ensures
        enc_posting_seq(ps).len() == 12 * ps.len(),
    decreases ps.len(),
{
    vstd::bytes::lemma_auto_spec_u64_to_from_le_bytes();
    vstd::bytes::lemma_auto_spec_u32_to_from_le_bytes();
    if ps.len() > 0 {
        assert(spec_u64_to_le_bytes(ps[0].doc_id).len() == 8);
        assert(spec_u32_to_le_bytes(ps[0].tf).len() == 4);
        lemma_enc_posting_seq_len(ps.drop_first());
    }
}

/// An encoded posting embedded in a buffer decodes to the posting written.
pub proof fn lemma_dec_posting_of_enc(b: Seq<u8>, pos: int, p: Posting)
    requires
        0 <= pos,
        pos + 12 <= b.len(),
        b.subrange(pos, pos + 12) == enc_posting(p),
    ensures
        dec_posting(b, pos) == Some((p, pos + 12)),
{
    vstd::bytes::lemma_auto_spec_u64_to_from_le_bytes();
    vstd::bytes::lemma_auto_spec_u32_to_from_le_bytes();
    assert(spec_u64_to_le_bytes(p.doc_id).len() == 8);
    assert(spec_u32_to_le_bytes(p.tf).len() == 4);
    assert(b.subrange(pos, pos + 8) =~= enc_posting(p).subrange(0, 8));
    assert(enc_posting(p).subrange(0, 8) =~= spec_u64_to_le_bytes(p.doc_id));
    lemma_dec_u64_of_enc(b, pos, p.doc_id);
    assert(b.subrange(pos + 8, pos + 12) =~= enc_posting(p).subrange(8, 12));
    assert(enc_posting(p).subrange(8, 12) =~= spec_u32_to_le_bytes(p.tf));
    lemma_dec_u32_of_enc(b, pos + 8, p.tf);
}

/// An encoded run of postings embedded in a buffer decodes to the postings
/// written.
pub proof fn lemma_dec_posting_seq_of_enc(b: Seq<u8>, pos: int, ps: Seq<Posting>)
    requires
        0 <= pos,
        pos + 12 * ps.len() <= b.len(),
        b.subrange(pos, pos + 12 * ps.len()) == enc_posting_seq(ps),
    ensures
        dec_posting_seq(b, pos, ps.len() as int) == Some((ps, pos + 12 * ps.len())),
    decreases ps.len(),
{
    lemma_enc_posting_seq_len(ps);
    if ps.len() == 0 {
        assert(ps =~= Seq::<Posting>::empty());
    } else {
        let p = ps[0];
        let rest = ps.drop_first();
        lemma_enc_posting_seq_len(rest);
        assert(b.subrange(pos, pos + 12) =~= enc_posting_seq(ps).subrange(0, 12));
        assert(enc_posting_seq(ps).subrange(0, 12) =~= enc_posting(p));
        lemma_dec_posting_of_enc(b, pos, p);
        assert(b.subrange(pos + 12, pos + 12 + 12 * rest.len()) =~= enc_posting_seq(
            ps,
        ).subrange(12, 12 + 12 * rest.len() as int));
        assert(enc_posting_seq(ps).subrange(12, 12 + 12 * rest.len() as int) =~= enc_posting_seq(
            rest,
        ));
        lemma_dec_posting_seq_of_enc(b, pos + 12, rest);
        assert(seq![p] + rest =~= ps);
    }
}

/// Round trip: a whole postings run decodes to the postings written.
pub proof fn lemma_dec_postings_of_enc(ps: Seq<Posting>)
    requires
        ps.len() < 0x1_0000_0000_0000_0000,
    ensures
        dec_postings(enc_postings(ps)) == Some(ps),
{
    let b = enc_postings(ps);
    vstd::bytes::lemma_auto_spec_u64_to_from_le_bytes();
    assert(spec_u64_to_le_bytes(ps.len() as u64).len() == 8);
    lemma_enc_posting_seq_len(ps);
    assert(b.subrange(0, 8) =~= spec_u64_to_le_bytes(ps.len() as u64));
    lemma_dec_u64_of_enc(b, 0, ps.len() as u64);
    assert(b.subrange(8, 8 + 12 * ps.len() as int) =~= enc_posting_seq(ps));
    lemma_dec_posting_seq_of_enc(b, 8, ps);
}

/// Serialises one postings run.
pub fn write_postings(out: &mut Vec<u8>, ps: &Vec<Posting>)
    ensures
        final(out)@ == old(out)@ + enc_postings(ps@),
{
    write_u64(out, ps.len() as u64);
    let ghost base = out@;
    let n = ps.len();
    let mut i: usize = 0;
    proof {
        assert(ps@.subrange(0, 0) =~= Seq::<Posting>::empty());
    }
    while i < n
        invariant
            i <= n,
            n == ps@.len(),
            out@ == base + enc_posting_seq(ps@.subrange(0, i as int)),
        decreases n - i,
    {
        write_u64(out, ps[i].doc_id);
        write_u32(out, ps[i].tf);
        proof {
            assert(ps@.subrange(0, i + 1) =~= ps@.subrange(0, i as int).push(ps@[i as int]));
            lemma_enc_posting_seq_push(ps@.subrange(0, i as int), ps@[i as int]);
            assert(out@ =~= base + enc_posting_seq(ps@.subrange(0, i + 1)));
        }
        i = i + 1;
    }
    proof {
        assert(ps@.subrange(0, n as int) =~= ps@);
    }
}

/// Parses one whole postings run.
pub fn read_postings(bytes: &Vec<u8>) -> (r: Option<Vec<Posting>>)
    ensures
        match r {
            Some(ps) => dec_postings(bytes@) == Some(ps@),
            None => dec_postings(bytes@) is None,
        },
{
    let (n, start) = match read_u64(bytes, 0) {
        Some(x) => x,
        None => {
            return None;
        },
    };
    let mut ps: Vec<Posting> = Vec::new();
    let mut cur: usize = start;
    let mut i: u64 = 0;
    while i < n
        invariant
            i <= n,
            dec_u64(bytes@, 0) == Some((n, start as int)),
            dec_posting_seq(bytes@, start as int, n as int) == (match dec_posting_seq(
                bytes@,
                cur as int,
                (n - i) as int,
            ) {
                Some((rest, p)) => Some((ps@ + rest, p)),
                None => None::<(Seq<Posting>, int)>,
            }),
        decreases n - i,
    {
        let (doc_id, p1) = match read_u64(bytes, cur) {
            Some(x) => x,
            None => {
                return None;
            },
        };
        let (tf, p2) = match read_u32(bytes, p1) {
            Some(x) => x,
            None => {
                return None;
            },
        };
        let p = Posting { doc_id, tf };
        proof {
            let tail = dec_posting_seq(bytes@, p2 as int, (n - i - 1) as int);
            if tail is Some {
                let (rest, q) = tail->Some_0;
                assert(ps@ + (seq![p] + rest) =~= ps@.push(p) + rest);
            }
        }
        ps.push(p);
        cur = p2;
        i = i + 1;
    }
    proof {
        assert(ps@ + Seq::<Posting>::empty() =~= ps@);
    }
    if cur != bytes.len() {
        return None;
    }
    Some(ps)
}

// ---------------------------------------------------------------------------
// The dictionary file
// ---------------------------------------------------------------------------

/// One dictionary entry: the term, then df, offset and length.
pub open spec fn enc_dict_entry(e: DictEntryView) -> Seq<u8> {
    enc_str(e.term) + spec_u32_to_le_bytes(e.info.df) + spec_u64_to_le_bytes(
        e.info.postings_offset,
    ) + spec_u64_to_le_bytes(e.info.postings_len)
}

/// Entries one after another, in dictionary order.
pub open spec fn enc_dict_seq(es: Seq<DictEntryView>) -> Seq<u8>
    decreases es.len(),
{
    if es.len() == 0 {
        Seq::<u8>::empty()
    } else {
        enc_dict_entry(es[0]) + enc_dict_seq(es.drop_first())
    }
}

/// The dictionary file: the entry count, then the entries.
pub open spec fn enc_dict(es: Seq<DictEntryView>) -> Seq<u8> {
    spec_u64_to_le_bytes(es.len() as u64) + enc_dict_seq(es)
}

/// Parses one dictionary entry at `pos`.
pub open spec fn dec_dict_entry(b: Seq<u8>, pos: int) -> Option<(DictEntryView, int)> {
    match dec_str(b, pos) {
        Some((term, p1)) => match dec_u32(b, p1) {
            Some((df, p2)) => match dec_u64(b, p2) {
                Some((off, p3)) => match dec_u64(b, p3) {
                    Some((len, p4)) => Some(
                        (
                            (DictEntryView {
                                term,
                                info: TermInfo { df, postings_offset: off, postings_len: len },
                            }),
                            p4,
                        ),
                    ),
                    None => None,
                },
                None => None,
            },
            None => None,
        },
        None => None,
    }
}

/// Parses exactly `n` dictionary entries at `pos`.
pub open spec fn dec_dict_seq(b: Seq<u8>, pos: int, n: int) -> Option<(Seq<DictEntryView>, int)>
    decreases n,
{
    if n <= 0 {
        Some((Seq::<DictEntryView>::empty(), pos))
    } else {
        match dec_dict_entry(b, pos) {
            Some((e, p1)) => match dec_dict_seq(b, p1, n - 1) {
                Some((es, p2)) => Some((seq![e] + es, p2)),
                None => None,
            },
            None => None,
        }
    }
}

/// Which byte strings are accepted as a dictionary file: a count, that many
/// entries, and nothing after them.
pub open spec fn dec_dict(b: Seq<u8>) -> Option<Seq<DictEntryView>> {
    match dec_u64(b, 0) {
        Some((n, p)) => match dec_dict_seq(b, p, n as int) {
            Some((es, q)) => if q == b.len() {
                Some(es)
            } else {
                None
            },
            None => None,
        },
        None => None,
    }
}

/// Appending one entry appends its encoding.
pub proof fn lemma_enc_dict_seq_push(es: Seq<DictEntryView>, e: DictEntryView)
    ensures
        enc_dict_seq(es.push(e)) == enc_dict_seq(es) + enc_dict_entry(e),
    decreases es.len(),
{
    reveal_with_fuel(enc_dict_seq, 3);
    if es.len() == 0 {
        assert(es.push(e)[0] == e);
        assert(es.push(e).drop_first() =~= Seq::<DictEntryView>::empty());
        assert(enc_dict_seq(es.push(e)) =~= enc_dict_seq(es) + enc_dict_entry(e));
    } else {
        assert(es.push(e).drop_first() =~= es.drop_first().push(e));
        lemma_enc_dict_seq_push(es.drop_first(), e);
        assert(enc_dict_seq(es.push(e)) =~= enc_dict_seq(es) + enc_dict_entry(e));
    }
}

/// An encoded dictionary entry embedded in a buffer decodes to the entry
/// written.
pub proof fn lemma_dec_dict_entry_of_enc(b: Seq<u8>, pos: int, e: DictEntryView)
    requires
        0 <= pos,
        e.term.len() < 0x1_0000_0000_0000_0000,
        pos + enc_dict_entry(e).len() <= b.len(),
        b.subrange(pos, pos + enc_dict_entry(e).len()) == enc_dict_entry(e),
    ensures
        dec_dict_entry(b, pos) == Some((e, pos + enc_dict_entry(e).len())),
{
    vstd::bytes::lemma_auto_spec_u64_to_from_le_bytes();
    vstd::bytes::lemma_auto_spec_u32_to_from_le_bytes();
    assert(spec_u32_to_le_bytes(e.info.df).len() == 4);
    assert(spec_u64_to_le_bytes(e.info.postings_offset).len() == 8);
    assert(spec_u64_to_le_bytes(e.info.postings_len).len() == 8);
    assert(spec_u64_to_le_bytes(e.term.len() as u64).len() == 8);
    lemma_enc_chars_len(e.term);
    let sl = 8 + 4 * e.term.len() as int;
    let enc = enc_dict_entry(e);
    assert(enc.len() == sl + 20);
    assert(b.subrange(pos, pos + sl) =~= enc.subrange(0, sl));
    assert(enc.subrange(0, sl) =~= enc_str(e.term));
    lemma_dec_str_of_enc(b, pos, e.term);
    assert(b.subrange(pos + sl, pos + sl + 4) =~= enc.subrange(sl, sl + 4));
    assert(enc.subrange(sl, sl + 4) =~= spec_u32_to_le_bytes(e.info.df));
    lemma_dec_u32_of_enc(b, pos + sl, e.info.df);
    assert(b.subrange(pos + sl + 4, pos + sl + 12) =~= enc.subrange(sl + 4, sl + 12));
    assert(enc.subrange(sl + 4, sl + 12) =~= spec_u64_to_le_bytes(e.info.postings_offset));
    lemma_dec_u64_of_enc(b, pos + sl + 4, e.info.postings_offset);
    assert(b.subrange(pos + sl + 12, pos + sl + 20) =~= enc.subrange(sl + 12, sl + 20));
    assert(enc.subrange(sl + 12, sl + 20) =~= spec_u64_to_le_bytes(e.info.postings_len));
    lemma_dec_u64_of_enc(b, pos + sl + 12, e.info.postings_len);
}

/// An encoded run of dictionary entries embedded in a buffer decodes to the
/// entries written.
pub proof fn lemma_dec_dict_seq_of_enc(b: Seq<u8>, pos: int, es: Seq<DictEntryView>)
    requires
        0 <= pos,
        forall|i: int|
            0 <= i < es.len() ==> (#[trigger] es[i].term).len() < 0x1_0000_0000_0000_0000,
        pos + enc_dict_seq(es).len() <= b.len(),
        b.subrange(pos, pos + enc_dict_seq(es).len()) == enc_dict_seq(es),
    ensures
        dec_dict_seq(b, pos, es.len() as int) == Some((es, pos + enc_dict_seq(es).len())),
    decreases es.len(),
{
    if es.len() == 0 {
        assert(es =~= Seq::<DictEntryView>::empty());
    } else {
        let e = es[0];
        let rest = es.drop_first();
        let el = enc_dict_entry(e).len() as int;
        let rl = enc_dict_seq(rest).len() as int;
        assert(enc_dict_seq(es) == enc_dict_entry(e) + enc_dict_seq(rest));
        assert(b.subrange(pos, pos + el) =~= enc_dict_seq(es).subrange(0, el));
        assert(enc_dict_seq(es).subrange(0, el) =~= enc_dict_entry(e));
        lemma_dec_dict_entry_of_enc(b, pos, e);
        assert(b.subrange(pos + el, pos + el + rl) =~= enc_dict_seq(es).subrange(el, el + rl));
        assert(enc_dict_seq(es).subrange(el, el + rl) =~= enc_dict_seq(rest));
        lemma_dec_dict_seq_of_enc(b, pos + el, rest);
        assert(seq![e] + rest =~= es);
    }
}

/// Round trip: a whole dictionary file decodes to the entries written.
pub proof fn lemma_dec_dict_of_enc(es: Seq<DictEntryView>)
    requires
        es.len() < 0x1_0000_0000_0000_0000,
        forall|i: int|
            0 <= i < es.len() ==> (#[trigger] es[i].term).len() < 0x1_0000_0000_0000_0000,
    ensures
        dec_dict(enc_dict(es)) == Some(es),
{
    let b = enc_dict(es);
    vstd::bytes::lemma_auto_spec_u64_to_from_le_bytes();
    assert(spec_u64_to_le_bytes(es.len() as u64).len() == 8);
    assert(b.subrange(0, 8) =~= spec_u64_to_le_bytes(es.len() as u64));
    lemma_dec_u64_of_enc(b, 0, es.len() as u64);
    assert(b.subrange(8, 8 + enc_dict_seq(es).len() as int) =~= enc_dict_seq(es));
    lemma_dec_dict_seq_of_enc(b, 8, es);
}

/// Serialises a dictionary.
pub fn write_dict(dict: &Vec<DictEntry>) -> (r: Vec<u8>)
    ensures
        r@ == enc_dict(dict@.map_values(|e: DictEntry| e@)),
{
    let ghost ev = dict@.map_values(|e: DictEntry| e@);
    let mut out: Vec<u8> = Vec::new();
    write_u64(&mut out, dict.len() as u64);
    let ghost base = out@;
    let n = dict.len();
    let mut i: usize = 0;
    proof {
        assert(ev.subrange(0, 0) =~= Seq::<DictEntryView>::empty());
    }
    while i < n
        invariant
            i <= n,
            n == dict@.len(),
            ev == dict@.map_values(|e: DictEntry| e@),
            base == spec_u64_to_le_bytes(n as u64),
            out@ == base + enc_dict_seq(ev.subrange(0, i as int)),
        decreases n - i,
    {
        write_str(&mut out, dict[i].term.as_str());
        write_u32(&mut out, dict[i].info.df);
        write_u64(&mut out, dict[i].info.postings_offset);
        write_u64(&mut out, dict[i].info.postings_len);
        proof {
            assert(ev.subrange(0, i + 1) =~= ev.subrange(0, i as int).push(ev[i as int]));
            lemma_enc_dict_seq_push(ev.subrange(0, i as int), ev[i as int]);
            assert(out@ =~= base + enc_dict_seq(ev.subrange(0, i + 1)));
        }
        i = i + 1;
    }
    proof {
        assert(ev.subrange(0, n as int) =~= ev);
    }
    out
}

/// Parses a dictionary file.
pub fn read_dict(bytes: &Vec<u8>) -> (r: Option<Vec<DictEntry>>)
    ensures
        match r {
            Some(es) => dec_dict(bytes@) == Some(es@.map_values(|e: DictEntry| e@)),
            None => dec_dict(bytes@) is None,
        },
{
    let (n, start) = match read_u64(bytes, 0) {
        Some(x) => x,
        None => {
            return None;
        },
    };
    let mut es: Vec<DictEntry> = Vec::new();
    let mut cur: usize = start;
    let mut i: u64 = 0;
    while i < n
        invariant
            i <= n,
            dec_u64(bytes@, 0) == Some((n, start as int)),
            dec_dict_seq(bytes@, start as int, n as int) == (match dec_dict_seq(
                bytes@,
                cur as int,
                (n - i) as int,
            ) {
                Some((rest, p)) => Some((es@.map_values(|e: DictEntry| e@) + rest, p)),
                None => None::<(Seq<DictEntryView>, int)>,
            }),
        decreases n - i,
    {
        let entry = read_dict_entry(bytes, cur);
        match entry {
            Some((e, p)) => {
                proof {
                    let tail = dec_dict_seq(bytes@, p as int, (n - i - 1) as int);
                    if tail is Some {
                        let (rest, q) = tail->Some_0;
                        assert(es@.map_values(|x: DictEntry| x@) + (seq![e@] + rest) =~= es@.push(
                            e,
                        ).map_values(|x: DictEntry| x@) + rest);
                    }
                }
                es.push(e);
                cur = p;
            },
            None => {
                proof {
                    assert(dec_dict_seq(bytes@, cur as int, (n - i) as int) is None);
                }
                return None;
            },
        }
        i = i + 1;
    }
    proof {
        assert(es@.map_values(|x: DictEntry| x@) + Seq::<DictEntryView>::empty() =~= es@.map_values(
            |x: DictEntry| x@,
        ));
    }
    if cur != bytes.len() {
        return None;
    }
    Some(es)
}

/// Parses one dictionary entry at `pos`.
fn read_dict_entry(bytes: &Vec<u8>, pos: usize) -> (r: Option<(DictEntry, usize)>)
    ensures
        match r {
            Some((e, p)) => dec_dict_entry(bytes@, pos as int) == Some((e@, p as int)),
            None => dec_dict_entry(bytes@, pos as int) is None,
        },
{
    let (term, p1) = match read_str(bytes, pos) {
        Some(x) => x,
        None => {
            return None;
        },
    };
    let (df, p2) = match read_u32(bytes, p1) {
        Some(x) => x,
        None => {
            return None;
        },
    };
    let (off, p3) = match read_u64(bytes, p2) {
        Some(x) => x,
        None => {
            return None;
        },
    };
    let (len, p4) = match read_u64(bytes, p3) {
        Some(x) => x,
        None => {
            return None;
        },
    };
    Some(
        (
            DictEntry {
                term,
                info: TermInfo { df, postings_offset: off, postings_len: len },
            },
            p4,
        ),
    )
}

// ---------------------------------------------------------------------------
// The segment itself
// ---------------------------------------------------------------------------

/// An on-disk segment as held in memory: its id, its decoded dictionary and
/// its raw postings file.
pub struct DiskSegment {
    pub seg_id: u64,
    pub dict: Vec<DictEntry>,
    pub postings: Vec<u8>,
}

/// The mathematical value of a `DiskSegment`.
pub struct DiskSegmentView {
    pub seg_id: u64,
    pub dict: Seq<DictEntryView>,
    pub postings: Seq<u8>,
}

impl View for DiskSegment {
    type V = DiskSegmentView;

    open spec fn view(&self) -> DiskSegmentView {
        DiskSegmentView {
            seg_id: self.seg_id,
            dict: dict_views(self.dict@),
            postings: self.postings@,
        }
    }
}

/// Postings in ascending `doc_id` order.
pub open spec fn postings_sorted(ps: Seq<Posting>) -> bool {
    forall|a: int, b: int| 0 <= a < b < ps.len() ==> ps[a].doc_id <= ps[b].doc_id
}

/// A valid postings run for use in a segment: every frequency at least one,
/// every document known to the store.
pub open spec fn postings_valid(ps: Seq<Posting>, num_docs: u64) -> bool {
    &&& postings_sorted(ps)
    &&& forall|k: int| 0 <= k < ps.len() ==> (#[trigger] ps[k]).tf >= 1
    &&& forall|k: int| 0 <= k < ps.len() ==> (#[trigger] ps[k]).doc_id < num_docs
}

/// The decoded postings run of dictionary entry `i`.
pub open spec fn entry_postings(s: DiskSegmentView, i: int) -> Option<Seq<Posting>> {
    let info = s.dict[i].info;
    if info.postings_offset + info.postings_len <= s.postings.len() {
        dec_postings(
            s.postings.subrange(
                info.postings_offset as int,
                info.postings_offset + info.postings_len,
            ),
        )
    } else {
        None
    }
}

/// A well-formed segment: terms strictly ascending, every byte range in
/// bounds, and every run decoding to exactly `df` valid postings.
pub open spec fn seg_wf(s: DiskSegmentView, num_docs: u64) -> bool {
    &&& forall|i: int, j: int|
        0 <= i < j < s.dict.len() ==> lex_lt(
            (#[trigger] s.dict[i]).term,
            (#[trigger] s.dict[j]).term,
        )
    &&& forall|i: int|
        0 <= i < s.dict.len() ==> (#[trigger] s.dict[i]).info.postings_offset
            + s.dict[i].info.postings_len <= s.postings.len()
    &&& forall|i: int|
        0 <= i < s.dict.len() ==> match entry_postings(s, i) {
            Some(ps) => ps.len() == (#[trigger] s.dict[i]).info.df && postings_valid(
                ps,
                num_docs,
            ),
            None => false,
        }
}

/// True when some dictionary entry carries term `t`.
pub open spec fn dict_has_term(dict: Seq<DictEntryView>, t: Seq<char>) -> bool {
    exists|i: int| 0 <= i < dict.len() && dict[i].term == t
}

/// The index of the dictionary entry carrying `t`, assuming one exists.
pub open spec fn dict_term_index(dict: Seq<DictEntryView>, t: Seq<char>) -> int {
    choose|i: int| 0 <= i < dict.len() && dict[i].term == t
}

/// Which byte strings are accepted as a whole segment.
pub open spec fn spec_load_segment(
    seg_id: u64,
    dict_bytes: Seq<u8>,
    postings_bytes: Seq<u8>,
    num_docs: u64,
) -> Option<DiskSegmentView> {
    match dec_dict(dict_bytes) {
        Some(dict) => {
            let s = DiskSegmentView { seg_id, dict, postings: postings_bytes };
            if seg_wf(s, num_docs) {
                Some(s)
            } else {
                None
            }
        },
        None => None,
    }
}

/// Parses and validates one on-disk segment.  `None` means the files are
/// corrupt (or refer to documents the store does not know): the caller
/// skips the segment.
pub fn load_segment(
    seg_id: u64,
    dict_bytes: &Vec<u8>,
    postings_bytes: &Vec<u8>,
    num_docs: u64,
) -> (r: Option<DiskSegment>)
    ensures
        match r {
            Some(s) => spec_load_segment(seg_id, dict_bytes@, postings_bytes@, num_docs) == Some(
                s@,
            ) && seg_wf(s@, num_docs) && s@.seg_id == seg_id && s@.postings == postings_bytes@,
            None => spec_load_segment(seg_id, dict_bytes@, postings_bytes@, num_docs) is None,
        },
{
    let dict = match read_dict(dict_bytes) {
        Some(d) => d,
        None => {
            return None;
        },
    };
    let postings = bytes_to_vec(postings_bytes);
    let s = DiskSegment { seg_id, dict, postings };
    if check_segment_wf(&s, num_docs) {
        Some(s)
    } else {
        None
    }
}

/// Copies a byte vector.
fn bytes_to_vec(bytes: &Vec<u8>) -> (r: Vec<u8>)
    ensures
        r@ == bytes@,
{
    slice_to_vec(bytes.as_slice())
}

/// Reads the postings run of dictionary entry `i` of a well-formed segment.
pub fn read_entry_postings(s: &DiskSegment, i: usize) -> (r: Vec<Posting>)
    requires
        exists|n: u64| seg_wf(s@, n),
        i < s@.dict.len(),
    ensures
        Some(r@) == entry_postings(s@, i as int),
{
    let ghost n = choose|n: u64| seg_wf(s@, n);
    let info = s.dict[i].info;
    let total = s.postings.len();
    proof {
        assert(s@.dict[i as int].info == info);
        assert(info.postings_offset + info.postings_len <= s@.postings.len());
        assert(info.postings_offset <= total);
        assert(info.postings_len <= total);
    }
    let off = info.postings_offset as usize;
    let len = info.postings_len as usize;
    let run = slice_to_vec(slice_subrange(s.postings.as_slice(), off, off + len));
    proof {
        assert(run@ =~= s@.postings.subrange(
            info.postings_offset as int,
            info.postings_offset + info.postings_len,
        ));
    }
    match read_postings(&run) {
        Some(ps) => ps,
        None => {
            // unreachable: well-formedness says the run decodes
            proof {
                assert(entry_postings(s@, i as int) is None);
                assert(false);
            }
            Vec::new()
        },
    }
}

/// Decides segment well-formedness.
fn check_segment_wf(s: &DiskSegment, num_docs: u64) -> (r: bool)
    ensures
        r == seg_wf(s@, num_docs),
{
    let n = s.dict.len();
    let mut i: usize = 0;
    while i < n
        invariant
            i <= n,
            n == s@.dict.len(),
            forall|a: int, b: int|
                0 <= a < b < i ==> lex_lt((#[trigger] s@.dict[a]).term, (#[trigger] s@.dict[b]).term),
            forall|a: int|
                0 <= a < i ==> (#[trigger] s@.dict[a]).info.postings_offset
                    + s@.dict[a].info.postings_len <= s@.postings.len(),
            forall|a: int|
                0 <= a < i ==> match entry_postings(s@, a) {
                    Some(ps) => ps.len() == (#[trigger] s@.dict[a]).info.df && postings_valid(
                        ps,
                        num_docs,
                    ),
                    None => false,
                },
        decreases n - i,
    {
        // strict term order against the previous entry carries to all pairs
        if i > 0 {
            if !str_lex_lt(s.dict[i - 1].term.as_str(), s.dict[i].term.as_str()) {
                proof {
                    assert(!lex_lt(s@.dict[i - 1].term, s@.dict[i as int].term));
                }
                return false;
            }
            proof {
                assert forall|a: int, b: int| 0 <= a < b < i + 1 implies lex_lt(
                    (#[trigger] s@.dict[a]).term,
                    (#[trigger] s@.dict[b]).term,
                ) by {
                    if b == i as int {
                        if a < i - 1 {
                            crate::order::lemma_lex_lt_trans(
                                s@.dict[a].term,
                                s@.dict[i - 1].term,
                                s@.dict[b].term,
                            );
                        }
                    }
                }
            }
        }
        let info = s.dict[i].info;
        if info.postings_len > s.postings.len() as u64 || info.postings_offset > s.postings.len()
            as u64 - info.postings_len {
            proof {
                assert(s@.dict[i as int].info.postings_offset + s@.dict[i as int].info.postings_len
                    > s@.postings.len());
            }
            return false;
        }
        let off = info.postings_offset as usize;
        let len = info.postings_len as usize;
        let run = slice_to_vec(slice_subrange(s.postings.as_slice(), off, off + len));
        let ps = match read_postings(&run) {
            Some(ps) => ps,
            None => {
                proof {
                    assert(entry_postings(s@, i as int) is None);
                }
                return false;
            },
        };
        proof {
            assert(entry_postings(s@, i as int) == Some(ps@));
        }
        if ps.len() as u64 != info.df as u64 {
            proof {
                assert(!(match entry_postings(s@, i as int) {
                    Some(ps2) => ps2.len() == s@.dict[i as int].info.df && postings_valid(
                        ps2,
                        num_docs,
                    ),
                    None => false,
                }));
            }
            return false;
        }
        if !check_postings_valid(&ps, num_docs) {
            return false;
        }
        i = i + 1;
    }
    true
}

/// Decides validity of a postings run.
fn check_postings_valid(ps: &Vec<Posting>, num_docs: u64) -> (r: bool)
    ensures
        r == postings_valid(ps@, num_docs),
{
    let n = ps.len();
    let mut i: usize = 0;
    while i < n
        invariant
            i <= n,
            n == ps@.len(),
            forall|a: int, b: int| 0 <= a < b < i ==> ps@[a].doc_id <= ps@[b].doc_id,
            forall|k: int| 0 <= k < i ==> (#[trigger] ps@[k]).tf >= 1,
            forall|k: int| 0 <= k < i ==> (#[trigger] ps@[k]).doc_id < num_docs,
        decreases n - i,
    {
        if i > 0 {
            if ps[i - 1].doc_id > ps[i].doc_id {
                return false;
            }
            proof {
                assert forall|a: int, b: int| 0 <= a < b < i + 1 implies ps@[a].doc_id
                    <= ps@[b].doc_id by {
                    if b == i as int && a < i - 1 {
                        assert(ps@[a].doc_id <= ps@[i - 1].doc_id);
                    }
                }
            }
        }
        if ps[i].tf < 1 {
            return false;
        }
        if ps[i].doc_id >= num_docs {
            return false;
        }
        i = i + 1;
    }
    true
}

} // verus!
