//! Segment flush: draining the in-memory segment into an immutable on-disk
//! segment.
//!
//! Terms are written in ascending lexicographic order; within each term the
//! postings are sorted by ascending `doc_id` and serialised as one
//! contiguous run appended to the postings file, whose position and length
//! the dictionary records.  Flushing is proved to produce a well-formed
//! segment that, loaded back from the two blobs, yields exactly the segment
//! registered in memory — and whose contents are the drained postings.

use vstd::prelude::*;
use vstd::multiset::Multiset;
use crate::disk::DictEntry;
use crate::disk::DictEntryView;
use crate::disk::DiskSegment;
use crate::disk::DiskSegmentView;
use crate::disk::TermInfo;
use crate::disk::dec_postings;
use crate::disk::dict_has_term;
use crate::disk::dict_views;
use crate::disk::dec_dict;
use crate::disk::enc_dict;
use crate::disk::enc_postings;
use crate::disk::entry_postings;
use crate::disk::lemma_dec_dict_of_enc;
use crate::disk::lemma_dec_postings_of_enc;
use crate::disk::postings_sorted;
use crate::disk::postings_valid;
use crate::disk::seg_wf;
use crate::disk::spec_load_segment;
use crate::disk::write_dict;
use crate::disk::write_postings;
use crate::order::lemma_lex_lt_connected;
use crate::order::lex_lt;
use crate::order::str_lex_lt;
use crate::segment::InMemorySegment;
use crate::segment::Posting;
use crate::segment::TermPostings;
use crate::segment::TermPostingsView;
use crate::segment::distinct_terms;
use crate::segment::entry_views;
use crate::segment::has_term;
use crate::segment::term_index;
use crate::segment::term_list;

verus! {

broadcast use vstd::seq_lib::group_to_multiset_ensures, vstd::multiset::group_multiset_axioms;

/// All document ids mentioned by the segment are below `num_docs`.
pub open spec fn mem_docs_bounded(sv: Seq<TermPostingsView>, num_docs: u64) -> bool {
    forall|i: int, k: int|
        0 <= i < sv.len() && 0 <= k < sv[i].list.len() ==> (#[trigger] sv[i].list[k]).doc_id
            < num_docs
}

/// Every term's postings list is shorter than `2^32`, so its document
/// frequency fits the dictionary's 32-bit field.
pub open spec fn mem_lists_fit_u32(sv: Seq<TermPostingsView>) -> bool {
    forall|i: int| 0 <= i < sv.len() ==> (#[trigger] sv[i].list).len() < 0x1_0000_0000
}

/// Equal entry multisets with distinct terms give the same term lookup.
pub proof fn lemma_multiset_entry_lookup(a: Seq<TermPostingsView>, b: Seq<TermPostingsView>)
    requires
        a.to_multiset() == b.to_multiset(),
        distinct_terms(a),
        distinct_terms(b),
    ensures
        forall|t: Seq<char>| #[trigger] has_term(a, t) == has_term(b, t),
        forall|t: Seq<char>| has_term(a, t) ==> #[trigger] term_list(a, t) == term_list(b, t),
{
    assert forall|t: Seq<char>| #[trigger] has_term(a, t) implies has_term(b, t) by {
        lemma_one_direction(a, b, t);
    }
    assert forall|t: Seq<char>| #[trigger] has_term(b, t) implies has_term(a, t) by {
        lemma_one_direction(b, a, t);
    }
    assert forall|t: Seq<char>| has_term(a, t) implies #[trigger] term_list(a, t) == term_list(
        b,
        t,
    ) by {
        let i = term_index(a, t);
        let e = a[i];
        assert(a.contains(e));
        assert(a.to_multiset().count(e) > 0);
        assert(b.to_multiset().count(e) > 0);
        assert(b.contains(e));
        let j = choose|j: int| 0 <= j < b.len() && b[j] == e;
        assert(b[j].term == t);
        assert(has_term(b, t));
        let j2 = term_index(b, t);
        if j2 < j {
            assert(b[j2].term != b[j].term);
        } else if j < j2 {
            assert(b[j].term != b[j2].term);
        }
        assert(term_list(b, t) == e.list);
    }
}

/// Half of the lookup agreement: a term found in `a` is found in `b`.
proof fn lemma_one_direction(a: Seq<TermPostingsView>, b: Seq<TermPostingsView>, t: Seq<char>)
    requires
        a.to_multiset() == b.to_multiset(),
        has_term(a, t),
    ensures
        has_term(b, t),
{
    let i = term_index(a, t);
    let e = a[i];
    assert(a.contains(e));
    assert(a.to_multiset().count(e) > 0);
    assert(b.to_multiset().count(e) > 0);
    assert(b.contains(e));
    let j = choose|j: int| 0 <= j < b.len() && b[j] == e;
    assert(b[j].term == t);
}

/// Sorts a postings list by ascending document id.  The result holds the
/// same postings (as a multiset); duplicate ids keep no particular order.
pub fn sort_postings(input: Vec<Posting>) -> (r: Vec<Posting>)
    ensures
        postings_sorted(r@),
        r@.to_multiset() == input@.to_multiset(),
        r@.len() == input@.len(),
{
    let mut rem = input;
    let ghost all = rem@;
    let mut out: Vec<Posting> = Vec::new();
    proof {
        assert(out@.to_multiset().add(rem@.to_multiset()) =~= all.to_multiset());
    }
    while rem.len() > 0
        invariant
            postings_sorted(out@),
            forall|j: int, k: int|
                0 <= j < out@.len() && 0 <= k < rem@.len() ==> (#[trigger] out@[j]).doc_id <= (
                #[trigger] rem@[k]).doc_id,
            out@.to_multiset().add(rem@.to_multiset()) == all.to_multiset(),
            out@.len() + rem@.len() == all.len(),
        decreases rem@.len(),
    {
        let mut m: usize = 0;
        let mut k: usize = 1;
        while k < rem.len()
            invariant
                m < k,
                k <= rem@.len(),
                rem@.len() > 0,
                forall|j: int| 0 <= j < k ==> rem@[m as int].doc_id <= (#[trigger] rem@[j]).doc_id,
            decreases rem@.len() - k,
        {
            if rem[k].doc_id < rem[m].doc_id {
                m = k;
            }
            k = k + 1;
        }
        let ghost rem0 = rem@;
        let p = rem.remove(m);
        proof {
            assert(rem@ == rem0.remove(m as int));
            assert(rem0.remove(m as int).to_multiset() == rem0.to_multiset().remove(p));
            assert(rem0.to_multiset().count(p) > 0) by {
                assert(rem0.contains(p));
            }
        }
        let ghost out0 = out@;
        out.push(p);
        proof {
            assert(out@.to_multiset() == out0.to_multiset().insert(p));
            assert(out@.to_multiset().add(rem@.to_multiset()) =~= out0.to_multiset().add(
                rem0.to_multiset(),
            ));
            // the popped posting is a lower bound of what remains
            assert forall|j: int, k2: int|
                0 <= j < out@.len() && 0 <= k2 < rem@.len() implies (#[trigger] out@[j]).doc_id <= (
            #[trigger] rem@[k2]).doc_id by {
                let orig_k = if k2 < m as int {
                    k2
                } else {
                    k2 + 1
                };
                assert(rem@[k2] == rem0[orig_k]);
                if j < out0.len() {
                    assert(out@[j] == out0[j]);
                } else {
                    assert(out@[j] == p);
                    assert(rem0[m as int].doc_id <= rem0[orig_k].doc_id);
                }
            }
            assert forall|a: int, b: int| 0 <= a < b < out@.len() implies (
            #[trigger] out@[a]).doc_id <= (#[trigger] out@[b]).doc_id by {
                if b < out0.len() {
                    assert(out0[a].doc_id <= out0[b].doc_id);
                } else {
                    assert(out@[b] == p);
                    assert(out0[a].doc_id <= rem0[m as int].doc_id);
                }
            }
        }
    }
    proof {
        assert(rem@.to_multiset() =~= Multiset::<Posting>::empty());
        assert(out@.to_multiset() =~= all.to_multiset());
    }
    out
}

/// Sorts term entries into strictly ascending term order.  Requires the
/// terms to be distinct; the entries themselves are only rearranged.
pub fn sort_entries(input: Vec<TermPostings>) -> (r: Vec<TermPostings>)
    requires
        distinct_terms(entry_views(input@)),
    ensures
        r@.len() == input@.len(),
        entry_views(r@).to_multiset() == entry_views(input@).to_multiset(),
        forall|a: int, b: int|
            0 <= a < b < r@.len() ==> lex_lt(
                (#[trigger] entry_views(r@)[a]).term,
                (#[trigger] entry_views(r@)[b]).term,
            ),
        distinct_terms(entry_views(r@)),
{
    let mut rem = input;
    let ghost all = entry_views(rem@);
    let mut out: Vec<TermPostings> = Vec::new();
    proof {
        assert(entry_views(out@).to_multiset().add(
            entry_views(rem@).to_multiset(),
        ) =~= all.to_multiset());
    }
    while rem.len() > 0
        invariant
            entry_views(out@).to_multiset().add(
                entry_views(rem@).to_multiset(),
            ) == all.to_multiset(),
            out@.len() + rem@.len() == all.len(),
            forall|a: int, b: int|
                0 <= a < b < out@.len() ==> lex_lt(
                    (#[trigger] entry_views(out@)[a]).term,
                    (#[trigger] entry_views(out@)[b]).term,
                ),
            forall|j: int, k: int|
                0 <= j < out@.len() && 0 <= k < rem@.len() ==> lex_lt(
                    (#[trigger] entry_views(out@)[j]).term,
                    (#[trigger] entry_views(rem@)[k]).term,
                ),
            distinct_terms(entry_views(rem@)),
        decreases rem@.len(),
    {
        let ghost remv = entry_views(rem@);
        let mut m: usize = 0;
        let mut k: usize = 1;
        while k < rem.len()
            invariant
                m < k,
                k <= rem@.len(),
                rem@.len() > 0,
                remv == entry_views(rem@),
                forall|j: int|
                    0 <= j < k && j != m ==> !lex_lt(
                        (#[trigger] remv[j]).term,
                        remv[m as int].term,
                    ),
            decreases rem@.len() - k,
        {
            if str_lex_lt(rem[k].term.as_str(), rem[m].term.as_str()) {
                proof {
                    // what was not below the old minimum is not below the
                    // new, by transitivity through the old one
                    assert forall|j: int| 0 <= j < k + 1 && j != k implies !lex_lt(
                        (#[trigger] remv[j]).term,
                        remv[k as int].term,
                    ) by {
                        if lex_lt(remv[j].term, remv[k as int].term) {
                            if j == m as int {
                                crate::order::lemma_lex_lt_trans(
                                    remv[k as int].term,
                                    remv[m as int].term,
                                    remv[k as int].term,
                                );
                                crate::order::lemma_lex_lt_irrefl(remv[k as int].term);
                            } else {
                                crate::order::lemma_lex_lt_trans(
                                    remv[j].term,
                                    remv[k as int].term,
                                    remv[m as int].term,
                                );
                            }
                        }
                    }
                }
                m = k;
            }
            k = k + 1;
        }
        let ghost rem0 = rem@;
        let ghost rem0v = remv;
        let e = rem.remove(m);
        proof {
            assert(rem@ == rem0.remove(m as int));
            assert(entry_views(rem@) =~= rem0v.remove(m as int));
            assert(rem0v.remove(m as int).to_multiset() == rem0v.to_multiset().remove(e@));
            assert(rem0v.to_multiset().count(e@) > 0) by {
                assert(rem0v[m as int] == e@);
                assert(rem0v.contains(e@));
            }
        }
        let ghost out0v = entry_views(out@);
        out.push(e);
        proof {
            let outv = entry_views(out@);
            let newrem = entry_views(rem@);
            assert(outv =~= out0v.push(e@));
            assert(outv.to_multiset() == out0v.to_multiset().insert(e@));
            assert(outv.to_multiset().add(newrem.to_multiset()) =~= out0v.to_multiset().add(
                rem0v.to_multiset(),
            ));
            assert forall|j: int, k2: int|
                0 <= j < outv.len() && 0 <= k2 < newrem.len() implies lex_lt(
                (#[trigger] outv[j]).term,
                (#[trigger] newrem[k2]).term,
            ) by {
                let orig_k = if k2 < m as int {
                    k2
                } else {
                    k2 + 1
                };
                assert(newrem[k2] == rem0v[orig_k]);
                if j < out0v.len() {
                    assert(lex_lt(out0v[j].term, rem0v[orig_k].term));
                } else {
                    assert(outv[j] == e@);
                    assert(!lex_lt(rem0v[orig_k].term, rem0v[m as int].term));
                    assert(rem0v[orig_k].term != rem0v[m as int].term) by {
                        if orig_k < m as int {
                            assert(rem0v[orig_k].term != rem0v[m as int].term);
                        } else {
                            assert(rem0v[m as int].term != rem0v[orig_k].term);
                        }
                    }
                    lemma_lex_lt_connected(rem0v[m as int].term, rem0v[orig_k].term);
                }
            }
            assert forall|a: int, b: int| 0 <= a < b < outv.len() implies lex_lt(
                (#[trigger] outv[a]).term,
                (#[trigger] outv[b]).term,
            ) by {
                if b < out0v.len() {
                    assert(lex_lt(out0v[a].term, out0v[b].term));
                } else {
                    assert(outv[b] == e@);
                    assert(lex_lt(out0v[a].term, rem0v[m as int].term));
                }
            }
            assert forall|a: int, b: int| 0 <= a < b < newrem.len() implies (
            #[trigger] newrem[a]).term != (#[trigger] newrem[b]).term by {
                let oa = if a < m as int {
                    a
                } else {
                    a + 1
                };
                let ob = if b < m as int {
                    b
                } else {
                    b + 1
                };
                assert(newrem[a] == rem0v[oa]);
                assert(newrem[b] == rem0v[ob]);
                assert(rem0v[oa].term != rem0v[ob].term);
            }
        }
    }
    proof {
        let outv = entry_views(out@);
        assert(entry_views(rem@).to_multiset() =~= Multiset::<
            TermPostingsView,
        >::empty());
        assert(outv.to_multiset() =~= all.to_multiset());
        assert forall|a: int, b: int| 0 <= a < b < outv.len() implies (#[trigger] outv[a]).term
            != (#[trigger] outv[b]).term by {
            crate::order::lemma_lex_lt_irrefl(outv[a].term);
            assert(lex_lt(outv[a].term, outv[b].term));
            if outv[a].term == outv[b].term {
                assert(false);
            }
        }
    }
    out
}

/// The two files of a flushed segment, ready to be written to its directory.
pub struct SegmentFiles {
    pub seg_id: u64,
    pub dict_bytes: Vec<u8>,
    pub postings_bytes: Vec<u8>,
}

/// What a flush produces: the files for disk and the loaded form of the new
/// segment for the index's segment list.
pub struct FlushResult {
    pub files: SegmentFiles,
    pub segment: DiskSegment,
}


/// Entry-level properties carry across a permutation of entries.
proof fn lemma_entry_props_transfer(
    orig: Seq<TermPostingsView>,
    sv: Seq<TermPostingsView>,
    num_docs: u64,
)
    requires
        sv.to_multiset() == orig.to_multiset(),
        forall|i: int| 0 <= i < orig.len() ==> (#[trigger] orig[i].list).len() > 0,
        forall|i: int, k: int|
            0 <= i < orig.len() && 0 <= k < orig[i].list.len() ==> (
            #[trigger] orig[i].list[k]).tf >= 1,
        mem_docs_bounded(orig, num_docs),
        mem_lists_fit_u32(orig),
        forall|i: int|
            0 <= i < orig.len() ==> (#[trigger] orig[i].term).len() < 0x1_0000_0000_0000_0000,
    ensures
        forall|i: int|
            0 <= i < sv.len() ==> (#[trigger] sv[i].term).len() < 0x1_0000_0000_0000_0000,
        forall|i: int| 0 <= i < sv.len() ==> (#[trigger] sv[i].list).len() > 0,
        forall|i: int, k: int|
            0 <= i < sv.len() && 0 <= k < sv[i].list.len() ==> (#[trigger] sv[i].list[k]).tf >= 1,
        mem_docs_bounded(sv, num_docs),
        mem_lists_fit_u32(sv),
{
    assert forall|i: int| 0 <= i < sv.len() implies {
        &&& (#[trigger] sv[i].list).len() > 0
        &&& sv[i].list.len() < 0x1_0000_0000
        &&& sv[i].term.len() < 0x1_0000_0000_0000_0000
        &&& forall|k: int| 0 <= k < sv[i].list.len() ==> (#[trigger] sv[i].list[k]).tf >= 1
        &&& forall|k: int| 0 <= k < sv[i].list.len() ==> (#[trigger] sv[i].list[k]).doc_id < num_docs
    } by {
        let e = sv[i];
        assert(sv.contains(e));
        assert(sv.to_multiset().count(e) > 0);
        assert(orig.to_multiset().count(e) > 0);
        assert(orig.contains(e));
        let j = choose|j: int| 0 <= j < orig.len() && orig[j] == e;
        assert(orig[j].list.len() > 0);
        assert(orig[j].list.len() < 0x1_0000_0000);
        assert(orig[j].term.len() < 0x1_0000_0000_0000_0000);
        assert(forall|k: int|
            0 <= k < orig[j].list.len() ==> (#[trigger] orig[j].list[k]).tf >= 1);
        assert(forall|k: int|
            0 <= k < orig[j].list.len() ==> (#[trigger] orig[j].list[k]).doc_id < num_docs);
    }
    assert forall|i: int| 0 <= i < sv.len() implies (#[trigger] sv[i].term).len()
        < 0x1_0000_0000_0000_0000 by {
        assert(sv[i].list.len() > 0);
    }
}

/// Element-level posting properties carry across a permutation of postings.
proof fn lemma_posting_props_transfer(qs: Seq<Posting>, from: Seq<Posting>, num_docs: u64)
    requires
        qs.to_multiset() == from.to_multiset(),
        forall|k: int| 0 <= k < from.len() ==> (#[trigger] from[k]).tf >= 1,
        forall|k: int| 0 <= k < from.len() ==> (#[trigger] from[k]).doc_id < num_docs,
    ensures
        forall|k: int| 0 <= k < qs.len() ==> (#[trigger] qs[k]).tf >= 1,
        forall|k: int| 0 <= k < qs.len() ==> (#[trigger] qs[k]).doc_id < num_docs,
{
    assert forall|k: int| 0 <= k < qs.len() implies (#[trigger] qs[k]).tf >= 1 && qs[k].doc_id
        < num_docs by {
        let p = qs[k];
        assert(qs.contains(p));
        assert(qs.to_multiset().count(p) > 0);
        assert(from.to_multiset().count(p) > 0);
        assert(from.contains(p));
        let j = choose|j: int| 0 <= j < from.len() && from[j] == p;
        assert(from[j].tf >= 1);
        assert(from[j].doc_id < num_docs);
    }
}

/// Flushes the in-memory segment as on-disk segment `seg_id`.
///
/// An empty segment is left alone and produces nothing.  Otherwise the
/// terms are sorted, each term's postings are sorted by document id and
/// serialised as one run of the postings file, the dictionary is
/// serialised, and the buffer is cleared.  Loading the two produced blobs
/// yields exactly the returned segment, and each dictionary entry's run
/// holds precisely the postings the buffer had for that term.
pub fn flush_segment(segment: &mut InMemorySegment, seg_id: u64, num_docs: u64) -> (r: Option<
    FlushResult,
>)
    requires
        old(segment).wf(),
        mem_docs_bounded(old(segment)@, num_docs),
        mem_lists_fit_u32(old(segment)@),
    ensures
        r is None <==> old(segment)@.len() == 0,
        r is None ==> *final(segment) == *old(segment),
        r matches Some(res) ==> {
            &&& final(segment)@ == Seq::<TermPostingsView>::empty()
            &&& final(segment).doc_count == 0
            &&& final(segment).wf()
            &&& res.segment@.seg_id == seg_id
            &&& res.files.seg_id == seg_id
            &&& seg_wf(res.segment@, num_docs)
            &&& res.files.dict_bytes@ == enc_dict(res.segment@.dict)
            &&& res.files.postings_bytes@ == res.segment@.postings
            &&& spec_load_segment(
                seg_id,
                res.files.dict_bytes@,
                res.files.postings_bytes@,
                num_docs,
            ) == Some(res.segment@)
            &&& res.segment@.dict.len() == old(segment)@.len()
            &&& forall|t: Seq<char>|
                #[trigger] dict_has_term(res.segment@.dict, t) == has_term(old(segment)@, t)
            &&& forall|a: int|
                0 <= a < res.segment@.dict.len() ==> match entry_postings(res.segment@, a) {
                    Some(qs) => {
                        &&& qs.to_multiset() == term_list(
                            old(segment)@,
                            (#[trigger] res.segment@.dict[a]).term,
                        ).to_multiset()
                        &&& qs.len() == term_list(old(segment)@, res.segment@.dict[a].term).len()
                    },
                    None => false,
                }
        },
{
    if segment.postings.len() == 0 {
        proof {
            assert(segment@.len() == 0);
        }
        return None;
    }
    let ghost orig = old(segment)@;
    let mut entries: Vec<TermPostings> = Vec::new();
    core::mem::swap(&mut entries, &mut segment.postings);
    segment.doc_count = 0;
    proof {
        assert(entry_views(entries@) == orig);
        assert(segment@ =~= Seq::<TermPostingsView>::empty());
    }
    let sorted = sort_entries(entries);
    let ghost sv = entry_views(sorted@);
    proof {
        lemma_entry_props_transfer(orig, sv, num_docs);
        assert(sv.len() == orig.len());
    }
    let mut rest = sorted;
    let mut dict: Vec<DictEntry> = Vec::new();
    let mut blob: Vec<u8> = Vec::new();
    proof {
        assert(entry_views(rest@) =~= sv.skip(0));
        assert(dict_views(dict@) =~= Seq::<DictEntryView>::empty());
    }
    while rest.len() > 0
        invariant
            segment@ == Seq::<TermPostingsView>::empty(),
            segment.doc_count == 0,
            dict_views(dict@).len() + rest@.len() == sv.len(),
            entry_views(rest@) == sv.skip(dict_views(dict@).len() as int),
            sv.to_multiset() == orig.to_multiset(),
            distinct_terms(sv),
            forall|a: int, b: int|
                0 <= a < b < sv.len() ==> lex_lt((#[trigger] sv[a]).term, (#[trigger] sv[b]).term),
            forall|i: int| 0 <= i < sv.len() ==> (#[trigger] sv[i].list).len() > 0,
            forall|i: int, k: int|
                0 <= i < sv.len() && 0 <= k < sv[i].list.len() ==> (#[trigger] sv[i].list[k]).tf
                    >= 1,
            forall|i: int|
                0 <= i < sv.len() ==> (#[trigger] sv[i].term).len() < 0x1_0000_0000_0000_0000,
            mem_docs_bounded(sv, num_docs),
            mem_lists_fit_u32(sv),
            forall|a: int|
                0 <= a < dict_views(dict@).len() ==> (#[trigger] dict_views(dict@)[a]).term
                    == sv[a].term,
            forall|a: int|
                0 <= a < dict_views(dict@).len() ==> (#[trigger] dict_views(
                    dict@,
                )[a]).info.postings_offset + dict_views(dict@)[a].info.postings_len
                    <= blob@.len(),
            forall|a: int|
                0 <= a < dict_views(dict@).len() ==> match dec_postings(
                    blob@.subrange(
                        (#[trigger] dict_views(dict@)[a]).info.postings_offset as int,
                        dict_views(dict@)[a].info.postings_offset + dict_views(
                            dict@,
                        )[a].info.postings_len,
                    ),
                ) {
                    Some(qs) => {
                        &&& qs.len() == dict_views(dict@)[a].info.df
                        &&& postings_valid(qs, num_docs)
                        &&& qs.to_multiset() == sv[a].list.to_multiset()
                        &&& qs.len() == sv[a].list.len()
                    },
                    None => false,
                },
        decreases rest@.len(),
    {
        let ghost dv0 = dict_views(dict@);
        let ghost dlen = dv0.len() as int;
        let ghost blob0 = blob@;
        let ghost rest0v = entry_views(rest@);
        let e = rest.remove(0);
        proof {
            assert(rest0v[0] == sv.skip(dlen)[0]);
            assert(e@ == sv[dlen]);
            assert(entry_views(rest@) =~= rest0v.drop_first());
            assert(rest0v.drop_first() =~= sv.skip(dlen + 1));
        }
        let ps = sort_postings(e.list);
        proof {
            assert(sv[dlen].list.len() < 0x1_0000_0000);
            assert(ps@.len() == sv[dlen].list.len());
            assert(forall|k: int|
                0 <= k < sv[dlen].list.len() ==> (#[trigger] sv[dlen].list[k]).tf >= 1);
            assert(forall|k: int|
                0 <= k < sv[dlen].list.len() ==> (#[trigger] sv[dlen].list[k]).doc_id < num_docs);
            lemma_posting_props_transfer(ps@, sv[dlen].list, num_docs);
            assert(postings_valid(ps@, num_docs));
        }
        let off_usize = blob.len();
        write_postings(&mut blob, &ps);
        let off = off_usize as u64;
        let run_len = (blob.len() - off_usize) as u64;
        let df = ps.len() as u32;
        let ghost enc = enc_postings(ps@);
        proof {
            assert(blob@ == blob0 + enc);
            assert(run_len == enc.len());
            assert(blob@.subrange(off as int, off + run_len) =~= enc);
            lemma_dec_postings_of_enc(ps@);
            assert(dec_postings(blob@.subrange(off as int, off + run_len)) == Some(ps@));
        }
        let entry = DictEntry {
            term: e.term,
            info: TermInfo { df, postings_offset: off, postings_len: run_len },
        };
        dict.push(entry);
        proof {
            let dv = dict_views(dict@);
            assert(dv =~= dv0.push(
                (DictEntryView {
                    term: sv[dlen].term,
                    info: TermInfo { df, postings_offset: off, postings_len: run_len },
                }),
            ));
            assert forall|a: int| 0 <= a < dv.len() implies (#[trigger] dv[a]).term
                == sv[a].term by {
                if a < dlen {
                    assert(dv[a] == dv0[a]);
                }
            }
            assert forall|a: int| 0 <= a < dv.len() implies (
            #[trigger] dv[a]).info.postings_offset + dv[a].info.postings_len
                <= blob@.len() by {
                if a < dlen {
                    assert(dv[a] == dv0[a]);
                    assert(dv0[a].info.postings_offset + dv0[a].info.postings_len
                        <= blob0.len());
                }
            }
            assert forall|a: int| 0 <= a < dv.len() implies match dec_postings(
                blob@.subrange(
                    (#[trigger] dv[a]).info.postings_offset as int,
                    dv[a].info.postings_offset + dv[a].info.postings_len,
                ),
            ) {
                Some(qs) => {
                    &&& qs.len() == dv[a].info.df
                    &&& postings_valid(qs, num_docs)
                    &&& qs.to_multiset() == sv[a].list.to_multiset()
                    &&& qs.len() == sv[a].list.len()
                },
                None => false,
            } by {
                if a < dlen {
                    assert(dv[a] == dv0[a]);
                    assert(dv0[a].info.postings_offset + dv0[a].info.postings_len
                        <= blob0.len());
                    assert(blob@.subrange(
                        dv0[a].info.postings_offset as int,
                        dv0[a].info.postings_offset + dv0[a].info.postings_len,
                    ) =~= blob0.subrange(
                        dv0[a].info.postings_offset as int,
                        dv0[a].info.postings_offset + dv0[a].info.postings_len,
                    ));
                } else {
                    assert(dv[a].info.postings_offset == off);
                    assert(dv[a].info.postings_len == run_len);
                    assert(dec_postings(blob@.subrange(off as int, off + run_len)) == Some(
                        ps@,
                    ));
                    assert(ps@.len() == df);
                    assert(ps@.to_multiset() == sv[dlen].list.to_multiset());
                }
            }
        }
    }
    proof {
        assert(entry_views(rest@).len() == 0);
        assert(dict_views(dict@).len() == sv.len());
    }
    let dict_bytes = write_dict(&dict);
    let postings_copy = copy_bytes(&blob);
    let seg = DiskSegment { seg_id, dict, postings: blob };
    let files = SegmentFiles { seg_id, dict_bytes, postings_bytes: postings_copy };
    proof {
        let dv = dict_views(seg.dict@);
        let s = seg@;
        assert(s.dict == dv);
        assert(s.postings == seg.postings@);
        // strict dictionary order from the sorted terms
        assert forall|i: int, j: int| 0 <= i < j < s.dict.len() implies lex_lt(
            (#[trigger] s.dict[i]).term,
            (#[trigger] s.dict[j]).term,
        ) by {
            assert(dv[i].term == sv[i].term);
            assert(dv[j].term == sv[j].term);
            assert(lex_lt(sv[i].term, sv[j].term));
        }
        assert forall|i: int| 0 <= i < s.dict.len() implies (
        #[trigger] s.dict[i]).info.postings_offset + s.dict[i].info.postings_len
            <= s.postings.len() by {
            assert(dv[i].info.postings_offset + dv[i].info.postings_len <= seg.postings@.len());
        }
        assert forall|i: int| 0 <= i < s.dict.len() implies match entry_postings(s, i) {
            Some(qs) => qs.len() == (#[trigger] s.dict[i]).info.df && postings_valid(
                qs,
                num_docs,
            ),
            None => false,
        } by {
            assert(dv[i].info.postings_offset + dv[i].info.postings_len <= s.postings.len());
        }
        assert(seg_wf(s, num_docs));
        // the dictionary file decodes back to the dictionary
        assert(sv.len() < 0x1_0000_0000_0000_0000);
        assert forall|i: int| 0 <= i < dv.len() implies (#[trigger] dv[i].term).len()
            < 0x1_0000_0000_0000_0000 by {
            assert(dv[i].term == sv[i].term);
        }
        lemma_dec_dict_of_enc(dv);
        assert(spec_load_segment(seg_id, files.dict_bytes@, files.postings_bytes@, num_docs)
            == Some(s)) by {
            assert(files.postings_bytes@ == s.postings);
            assert(dec_dict(files.dict_bytes@) == Some(dv));
        }
        // lookups agree with the drained buffer
        lemma_multiset_entry_lookup(sv, orig);
        assert forall|t: Seq<char>| true implies #[trigger] dict_has_term(s.dict, t)
            == has_term(orig, t) by {
            if dict_has_term(s.dict, t) {
                let a = choose|a: int| 0 <= a < dv.len() && dv[a].term == t;
                assert(sv[a].term == t);
                assert(has_term(sv, t));
            }
            if has_term(sv, t) {
                let a = term_index(sv, t);
                assert(dv[a].term == t);
                assert(dict_has_term(s.dict, t));
            }
        }
        assert forall|a: int| 0 <= a < s.dict.len() implies match entry_postings(s, a) {
            Some(qs) => {
                &&& qs.to_multiset() == term_list(orig, (#[trigger] s.dict[a]).term).to_multiset()
                &&& qs.len() == term_list(orig, s.dict[a].term).len()
            },
            None => false,
        } by {
            crate::segment::lemma_term_index_of(sv, a);
            assert(term_list(sv, sv[a].term) == sv[a].list);
            assert(has_term(sv, sv[a].term));
            assert(term_list(sv, sv[a].term) == term_list(orig, sv[a].term));
            assert(dv[a].term == sv[a].term);
            assert(dv[a].info.postings_offset + dv[a].info.postings_len <= s.postings.len());
            let qs = dec_postings(
                s.postings.subrange(
                    dv[a].info.postings_offset as int,
                    dv[a].info.postings_offset + dv[a].info.postings_len,
                ),
            )->Some_0;
            assert(qs.to_multiset() == sv[a].list.to_multiset());
            assert(qs.len() == sv[a].list.len());
        }
    }
    Some(FlushResult { files, segment: seg })
}

/// Copies a byte vector.
fn copy_bytes(bytes: &Vec<u8>) -> (r: Vec<u8>)
    ensures
        r@ == bytes@,
{
    vstd::slice::slice_to_vec(bytes.as_slice())
}

} // verus!
