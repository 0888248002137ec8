//! The library's cross-cutting guarantees, each stated and proved once.
//!
//! These are consequences of the contracts elsewhere in the crate, written
//! down so a reader sees them stated rather than having to derive them.

use vstd::prelude::*;
use crate::disk::DiskSegmentView;
use crate::disk::entry_postings;
use crate::disk::postings_valid;
use crate::disk::seg_wf;
use crate::disk::spec_load_segment;
use crate::index::MainIndex;
use crate::index::SegmentSourceView;
use crate::index::seg_views;
use crate::index::spec_open_segments;
use crate::index::spec_open_store;
use crate::segment::Posting;
use crate::store::DocInfoView;
use crate::store::DocumentStore;
use crate::store::enc_store;
use crate::store::lemma_load_of_persist;
use crate::store::spec_load_store;
use crate::store::store_view_wf;

verus! {

broadcast use vstd::seq_lib::group_to_multiset_ensures, vstd::multiset::group_multiset_axioms;

/// Every id in `active_segments` names exactly one loaded, well-formed
/// segment: the lists are parallel, the ids distinct, and each segment
/// validates against the store — so its dictionary and postings files
/// parsed and deserialised successfully when it was loaded or flushed.
pub proof fn lemma_active_segments_valid(m: MainIndex)
    requires
        m.wf(),
    ensures
        m.segments@.len() == m.active_segments@.len(),
        forall|i: int|
            0 <= i < m.segments@.len() ==> (#[trigger] seg_views(m.segments@)[i]).seg_id
                == m.active_segments@[i],
        forall|i: int, j: int|
            0 <= i < j < m.active_segments@.len() ==> m.active_segments@[i]
                != m.active_segments@[j],
        forall|i: int|
            0 <= i < m.segments@.len() ==> seg_wf(#[trigger] seg_views(m.segments@)[i], m.num_docs()),
{
}

/// In a well-formed segment, the byte range each dictionary entry points at
/// decodes to exactly `df` postings, sorted by ascending document id, all
/// referring to documents the store knows.
pub proof fn lemma_segment_runs_decode(s: DiskSegmentView, num_docs: u64)
    requires
        seg_wf(s, num_docs),
    ensures
        forall|i: int|
            0 <= i < s.dict.len() ==> match entry_postings(s, i) {
                Some(ps) => ps.len() == (#[trigger] s.dict[i]).info.df && postings_valid(
                    ps,
                    num_docs,
                ),
                None => false,
            },
{
}

/// A sorted rearrangement of postings with pairwise-distinct document ids
/// has strictly increasing document ids — so a run flushed from a buffer
/// that held one posting per document lists each document once.
pub proof fn lemma_sorted_run_distinct(qs: Seq<Posting>, src: Seq<Posting>)
    requires
        crate::disk::postings_sorted(qs),
        qs.to_multiset() == src.to_multiset(),
        forall|i: int, j: int|
            0 <= i < j < src.len() ==> (#[trigger] src[i]).doc_id != (#[trigger] src[j]).doc_id,
    ensures
        forall|a: int, b: int|
            0 <= a < b < qs.len() ==> (#[trigger] qs[a]).doc_id < (#[trigger] qs[b]).doc_id,
{
    assert forall|a: int, b: int| 0 <= a < b < qs.len() implies (#[trigger] qs[a]).doc_id < (
    #[trigger] qs[b]).doc_id by {
        if qs[a].doc_id == qs[b].doc_id {
            // both elements come from src, whose ids are distinct, so they
            // are the same posting twice
            assert(qs.contains(qs[a]));
            assert(qs.to_multiset().count(qs[a]) > 0);
            assert(src.to_multiset().count(qs[a]) > 0);
            assert(src.contains(qs[a]));
            assert(qs.contains(qs[b]));
            assert(qs.to_multiset().count(qs[b]) > 0);
            assert(src.to_multiset().count(qs[b]) > 0);
            assert(src.contains(qs[b]));
            let i = choose|i: int| 0 <= i < src.len() && src[i] == qs[a];
            let j = choose|j: int| 0 <= j < src.len() && src[j] == qs[b];
            if i < j {
                assert(src[i].doc_id != src[j].doc_id);
            } else if j < i {
                assert(src[j].doc_id != src[i].doc_id);
            }
            assert(qs[a] == qs[b]);
            // but a duplicated element counts at least twice in qs and at
            // most once in src
            let e = qs[a];
            let qs2 = qs.remove(a);
            assert(qs2.to_multiset() == qs.to_multiset().remove(e));
            assert(qs2[b - 1] == qs[b]);
            assert(qs2.contains(e));
            assert(qs2.to_multiset().count(e) > 0);
            assert(qs.to_multiset().count(e) >= 2);
            assert(src.no_duplicates()) by {
                assert forall|i2: int, j2: int| 0 <= i2 < src.len() && 0 <= j2 < src.len() && i2
                    != j2 implies src[i2] != src[j2] by {
                    if i2 < j2 {
                        assert(src[i2].doc_id != src[j2].doc_id);
                    } else {
                        assert(src[j2].doc_id != src[i2].doc_id);
                    }
                }
            }
            src.lemma_multiset_has_no_duplicates();
            assert(src.to_multiset().count(e) == 1);
        }
    }
}

/// The document count equals the number of distinct paths the store knows:
/// paths are pairwise distinct, so their set has the store's cardinality.
pub proof fn lemma_total_docs_counts_distinct_paths(s: DocumentStore)
    requires
        s.wf(),
    ensures
        s@.map_values(|d: DocInfoView| d.path).to_set().len() == s@.len(),
{
    let paths = s@.map_values(|d: DocInfoView| d.path);
    assert(paths.no_duplicates()) by {
        assert forall|i: int, j: int|
            0 <= i < paths.len() && 0 <= j < paths.len() && i != j implies paths[i]
            != paths[j] by {
            if i < j {
                assert(s@[i].path != s@[j].path);
            } else {
                assert(s@[j].path != s@[i].path);
            }
        }
    }
    paths.unique_seq_to_set();
}

/// Persist, load, persist: the second persist of a well-formed store is
/// byte-identical to the first, because loading a persisted store yields
/// the store back.
pub proof fn lemma_persist_load_persist(ds: Seq<DocInfoView>)
    requires
        store_view_wf(ds),
    ensures
        spec_load_store(enc_store(ds)) == Some(ds),
        match spec_load_store(enc_store(ds)) {
            Some(ds2) => enc_store(ds2) == enc_store(ds),
            None => false,
        },
{
    lemma_load_of_persist(ds);
}

/// Reopening an index from what a commit persisted yields the same state:
/// the loaded store equals the committed store, and the loaded segment
/// views equal the committed segment views, provided each segment's files
/// load back to it — which `flush_segment` guarantees for every segment it
/// wrote.  Since every field of a search outcome is a function of the store
/// view and the segment views alone, the reopened index answers every query
/// exactly as the committed one did.
pub proof fn lemma_reopen_preserves_index(
    store: Seq<DocInfoView>,
    segs: Seq<DiskSegmentView>,
    srcs: Seq<SegmentSourceView>,
    num_docs: u64,
)
    requires
        store_view_wf(store),
        num_docs == store.len(),
        srcs.len() == segs.len(),
        forall|i: int|
            0 <= i < srcs.len() ==> spec_load_segment(
                (#[trigger] srcs[i]).seg_id,
                srcs[i].dict_bytes,
                srcs[i].postings_bytes,
                num_docs,
            ) == Some(segs[i]),
    ensures
        spec_open_store(Some(enc_store(store))) == store,
        spec_open_segments(srcs, num_docs) == segs,
    decreases srcs.len(),
{
    lemma_load_of_persist(store);
    if srcs.len() == 0 {
        assert(spec_open_segments(srcs, num_docs) =~= segs);
    } else {
        let sp = srcs.drop_last();
        let gp = segs.drop_last();
        assert(forall|i: int| 0 <= i < sp.len() ==> (#[trigger] sp[i]) == srcs[i]);
        assert(forall|i: int| 0 <= i < gp.len() ==> (#[trigger] gp[i]) == segs[i]);
        lemma_reopen_preserves_index(store, gp, sp, num_docs);
        assert(srcs[srcs.len() - 1] == srcs.last());
        assert(spec_load_segment(
            srcs.last().seg_id,
            srcs.last().dict_bytes,
            srcs.last().postings_bytes,
            num_docs,
        ) == Some(segs[segs.len() - 1]));
        assert(spec_open_segments(srcs, num_docs) =~= segs);
    }
}

} // verus!
