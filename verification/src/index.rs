//! The Main Index: the façade over the document store, the on-disk
//! segments and the current in-memory segment.
//!
//! Opening reads the persisted document store (an absent or malformed blob
//! yields an empty store) and the files of every segment directory the
//! caller discovered; a segment that does not parse and validate is
//! skipped.  Writes go to the in-memory segment and spill to a new on-disk
//! segment at the document-count threshold; a commit flushes what remains
//! and persists the store.  All file reads and writes happen outside: the
//! caller hands blobs in and carries the returned blobs to disk.

use vstd::prelude::*;
use crate::disk::DiskSegment;
use crate::disk::DiskSegmentView;
use crate::disk::dict_has_term;
use crate::disk::entry_postings;
use crate::disk::postings_valid;
use crate::disk::seg_wf;
use crate::disk::spec_load_segment;
use crate::flush::FlushResult;
use crate::flush::SegmentFiles;
use crate::flush::flush_segment;
use crate::flush::mem_docs_bounded;
use crate::flush::mem_lists_fit_u32;
use crate::segment::InMemorySegment;
use crate::segment::Posting;
use crate::segment::TermPostingsView;
use crate::segment::distinct_terms;
use crate::segment::has_term;
use crate::segment::lemma_term_index_of;
use crate::segment::mem_has_after;
use crate::segment::mem_list_after;
use crate::segment::occ_count;
use crate::segment::term_index;
use crate::segment::term_list;
use crate::stamp::Timestamp;
use crate::store::DocInfoView;
use crate::store::DocumentStore;
use crate::store::enc_store;
use crate::store::spec_load_store;
use crate::disk::load_segment;

verus! {

/// The two blobs of one segment directory, as read from disk by the caller.
pub struct SegmentSource {
    pub seg_id: u64,
    pub dict_bytes: Vec<u8>,
    pub postings_bytes: Vec<u8>,
}

/// The mathematical value of a `SegmentSource`.
pub struct SegmentSourceView {
    pub seg_id: u64,
    pub dict_bytes: Seq<u8>,
    pub postings_bytes: Seq<u8>,
}

impl View for SegmentSource {
    type V = SegmentSourceView;

    open spec fn view(&self) -> SegmentSourceView {
        SegmentSourceView {
            seg_id: self.seg_id,
            dict_bytes: self.dict_bytes@,
            postings_bytes: self.postings_bytes@,
        }
    }
}

/// The source views of a vector of segment sources.
pub open spec fn source_views(v: Seq<SegmentSource>) -> Seq<SegmentSourceView> {
    v.map_values(|s: SegmentSource| s@)
}

/// The segment views of a vector of loaded segments.
pub open spec fn seg_views(v: Seq<DiskSegment>) -> Seq<DiskSegmentView> {
    v.map_values(|s: DiskSegment| s@)
}

/// The segments that opening accepts, in input order: each source whose
/// files parse and validate against a store of `num_docs` documents.
pub open spec fn spec_open_segments(srcs: Seq<SegmentSourceView>, num_docs: u64) -> Seq<
    DiskSegmentView,
>
    decreases srcs.len(),
{
    if srcs.len() == 0 {
        Seq::<DiskSegmentView>::empty()
    } else {
        let pre = spec_open_segments(srcs.drop_last(), num_docs);
        match spec_load_segment(
            srcs.last().seg_id,
            srcs.last().dict_bytes,
            srcs.last().postings_bytes,
            num_docs,
        ) {
            Some(s) => pre.push(s),
            None => pre,
        }
    }
}

/// The store that opening builds from an optional persisted blob: the blob's
/// contents when it parses, the empty store otherwise.
pub open spec fn spec_open_store(blob: Option<Seq<u8>>) -> Seq<DocInfoView> {
    match blob {
        Some(b) => match spec_load_store(b) {
            Some(ds) => ds,
            None => Seq::<DocInfoView>::empty(),
        },
        None => Seq::<DocInfoView>::empty(),
    }
}

/// Well-formedness of a segment persists as the store grows.
pub proof fn lemma_seg_wf_monotone(s: DiskSegmentView, n1: u64, n2: u64)
    requires
        seg_wf(s, n1),
        n1 <= n2,
    ensures
        seg_wf(s, n2),
{
    assert forall|i: int| 0 <= i < s.dict.len() implies match entry_postings(s, i) {
        Some(ps) => ps.len() == (#[trigger] s.dict[i]).info.df && postings_valid(ps, n2),
        None => false,
    } by {
        assert(match entry_postings(s, i) {
            Some(ps) => ps.len() == s.dict[i].info.df && postings_valid(ps, n1),
            None => false,
        });
    }
}

/// The main inverted index.
pub struct MainIndex {
    /// The store of document metadata.
    pub doc_store: DocumentStore,
    /// The ids of the on-disk segments, in discovery/creation order.
    pub active_segments: Vec<u64>,
    /// The loaded on-disk segments, parallel to `active_segments`.
    pub segments: Vec<DiskSegment>,
    /// The in-memory segment being filled.
    pub current_segment: InMemorySegment,
    /// The id the next flushed segment will get.
    pub next_segment: u64,
    /// The document-count threshold at which the buffer is flushed.
    pub max_segment_docs: u64,
}

impl MainIndex {
    /// The store's document count, which bounds every document id the
    /// index mentions.
    pub open spec fn num_docs(self) -> u64 {
        self.doc_store@.len() as u64
    }

    pub open spec fn wf(self) -> bool {
        &&& self.doc_store.wf()
        &&& self.current_segment.wf()
        &&& mem_docs_bounded(self.current_segment@, self.num_docs())
        &&& forall|i: int|
            0 <= i < self.current_segment@.len() ==> (#[trigger] self.current_segment@[i].list).len()
                <= self.current_segment.doc_count
        &&& (self.current_segment.doc_count > 0 ==> self.current_segment@.len() > 0)
        &&& self.segments@.len() == self.active_segments@.len()
        &&& forall|i: int|
            0 <= i < self.segments@.len() ==> (#[trigger] seg_views(self.segments@)[i]).seg_id
                == self.active_segments@[i]
        &&& forall|i: int|
            0 <= i < self.segments@.len() ==> seg_wf(
                #[trigger] seg_views(self.segments@)[i],
                self.num_docs(),
            )
        &&& forall|i: int, j: int|
            0 <= i < j < self.active_segments@.len() ==> self.active_segments@[i]
                != self.active_segments@[j]
        &&& forall|i: int|
            0 <= i < self.active_segments@.len() ==> (#[trigger] self.active_segments@[i])
                < self.next_segment
        &&& self.next_segment >= 1
    }

    /// Opens the index: parses the persisted store (or starts empty), loads
    /// and validates each discovered segment (skipping corrupt ones), and
    /// sets the next segment id past every discovered one.
    pub fn new(
        docstore_blob: Option<&Vec<u8>>,
        sources: &Vec<SegmentSource>,
        max_segment_docs: u64,
    ) -> (r: MainIndex)
        requires
            forall|i: int, j: int|
                0 <= i < j < sources@.len() ==> (#[trigger] sources@[i])@.seg_id != (
                #[trigger] sources@[j])@.seg_id,
            forall|i: int|
                0 <= i < sources@.len() ==> (#[trigger] sources@[i])@.seg_id
                    < 0xFFFF_FFFF_FFFF_FFFFu64,
        ensures
            r.wf(),
            r.doc_store@ == spec_open_store(
                match docstore_blob {
                    Some(b) => Some(b@),
                    None => None,
                },
            ),
            seg_views(r.segments@) == spec_open_segments(source_views(sources@), r.num_docs()),
            r.current_segment@ == Seq::<TermPostingsView>::empty(),
            r.current_segment.doc_count == 0,
            r.max_segment_docs == max_segment_docs,
            forall|i: int|
                0 <= i < sources@.len() ==> (#[trigger] sources@[i])@.seg_id < r.next_segment,
            r.next_segment == 1 || (exists|i: int|
                0 <= i < sources@.len() && (#[trigger] sources@[i])@.seg_id + 1
                    == r.next_segment),
    {
        let doc_store = match docstore_blob {
            Some(b) => match DocumentStore::load(b) {
                Some(s) => s,
                None => DocumentStore::new(),
            },
            None => DocumentStore::new(),
        };
        let num_docs = doc_store.total_docs();
        let n = sources.len();
        let ghost srcs = source_views(sources@);

        let mut next: u64 = 1;
        let mut i: usize = 0;
        while i < n
            invariant
                i <= n,
                n == sources@.len(),
                srcs == source_views(sources@),
                forall|k: int|
                    0 <= k < n ==> (#[trigger] sources@[k])@.seg_id < 0xFFFF_FFFF_FFFF_FFFFu64,
                forall|k: int| 0 <= k < i ==> (#[trigger] srcs[k]).seg_id < next,
                next == 1 || (exists|k: int| 0 <= k < i && (#[trigger] srcs[k]).seg_id + 1 == next),
            decreases n - i,
        {
            proof {
                assert(srcs[i as int].seg_id == sources@[i as int]@.seg_id);
            }
            if sources[i].seg_id >= next {
                next = sources[i].seg_id + 1;
            }
            i = i + 1;
        }

        let mut segments: Vec<DiskSegment> = Vec::new();
        let mut active: Vec<u64> = Vec::new();
        let mut j: usize = 0;
        proof {
            assert(srcs.take(0) =~= Seq::<SegmentSourceView>::empty());
            assert(seg_views(segments@) =~= Seq::<DiskSegmentView>::empty());
        }
        while j < n
            invariant
                j <= n,
                n == sources@.len(),
                srcs == source_views(sources@),
                forall|a: int, b: int|
                    0 <= a < b < n ==> (#[trigger] srcs[a]).seg_id != (#[trigger] srcs[b]).seg_id,
                forall|k: int| 0 <= k < n ==> (#[trigger] srcs[k]).seg_id < next,
                num_docs == doc_store@.len(),
                doc_store.wf(),
                segments@.len() == active@.len(),
                seg_views(segments@) == spec_open_segments(srcs.take(j as int), num_docs),
                forall|k: int|
                    0 <= k < segments@.len() ==> (#[trigger] seg_views(segments@)[k]).seg_id
                        == active@[k],
                forall|k: int|
                    0 <= k < segments@.len() ==> seg_wf(
                        #[trigger] seg_views(segments@)[k],
                        num_docs,
                    ),
                forall|k: int|
                    0 <= k < active@.len() ==> exists|m: int|
                        0 <= m < j && (#[trigger] active@[k]) == srcs[m].seg_id,
            decreases n - j,
        {
            proof {
                assert(srcs.take(j + 1) =~= srcs.take(j as int).push(srcs[j as int]));
                assert(srcs.take(j + 1).drop_last() =~= srcs.take(j as int));
                assert(srcs.take(j + 1).last() == srcs[j as int]);
                assert(srcs[j as int] == sources@[j as int]@);
            }
            let loaded = load_segment(
                sources[j].seg_id,
                &sources[j].dict_bytes,
                &sources[j].postings_bytes,
                num_docs,
            );
            match loaded {
                Some(s) => {
                    let ghost segs0 = seg_views(segments@);
                    let id = sources[j].seg_id;
                    segments.push(s);
                    active.push(id);
                    proof {
                        assert(seg_views(segments@) =~= segs0.push(s@));
                        assert forall|k: int| 0 <= k < active@.len() implies exists|m: int|
                            0 <= m < j + 1 && (#[trigger] active@[k]) == srcs[m].seg_id by {
                            if k < active@.len() - 1 {
                                let m = choose|m: int|
                                    0 <= m < j && active@[k] == srcs[m].seg_id;
                                assert(0 <= m < j + 1 && active@[k] == srcs[m].seg_id);
                            } else {
                                assert(active@[k] == srcs[j as int].seg_id);
                            }
                        }
                    }
                },
                None => {},
            }
            j = j + 1;
        }
        proof {
            assert(srcs.take(n as int) =~= srcs);
            assert forall|i: int| 0 <= i < n implies (#[trigger] sources@[i])@.seg_id < next by {
                assert(srcs[i] == sources@[i]@);
                assert(srcs[i].seg_id < next);
            }
        }
        let current_segment = InMemorySegment::new();
        let r = MainIndex {
            doc_store,
            active_segments: active,
            segments,
            current_segment,
            next_segment: next,
            max_segment_docs,
        };
        proof {
            assert forall|a: int, b: int| 0 <= a < b < r.active_segments@.len() implies
                r.active_segments@[a] != r.active_segments@[b] by {
                let ma = choose|m: int|
                    0 <= m < n && r.active_segments@[a] == srcs[m].seg_id;
                let mb = choose|m: int|
                    0 <= m < n && r.active_segments@[b] == srcs[m].seg_id;
                assert(seg_views(r.segments@)[a].seg_id == r.active_segments@[a]);
                assert(seg_views(r.segments@)[b].seg_id == r.active_segments@[b]);
                if ma != mb {
                    if ma < mb {
                        assert(srcs[ma].seg_id != srcs[mb].seg_id);
                    } else {
                        assert(srcs[mb].seg_id != srcs[ma].seg_id);
                    }
                } else {
                    // same source cannot appear at two positions of the
                    // loaded list, whose ids follow distinct sources
                    lemma_open_segments_distinct(srcs, num_docs);
                    assert(seg_views(r.segments@) == spec_open_segments(srcs, num_docs));
                }
            }
            assert forall|k: int| 0 <= k < r.active_segments@.len() implies (
            #[trigger] r.active_segments@[k]) < r.next_segment by {
                let m = choose|m: int| 0 <= m < n && r.active_segments@[k] == srcs[m].seg_id;
                assert(srcs[m].seg_id < next);
            }
        }
        r
    }
}

/// In the loaded-segment list of distinct sources, ids at distinct
/// positions differ.
proof fn lemma_open_segments_distinct(srcs: Seq<SegmentSourceView>, num_docs: u64)
    requires
        forall|a: int, b: int|
            0 <= a < b < srcs.len() ==> (#[trigger] srcs[a]).seg_id != (#[trigger] srcs[b]).seg_id,
    ensures
        forall|a: int, b: int|
            0 <= a < b < spec_open_segments(srcs, num_docs).len() ==> (
            #[trigger] spec_open_segments(srcs, num_docs)[a]).seg_id != (#[trigger] spec_open_segments(
                srcs,
                num_docs,
            )[b]).seg_id,
    decreases srcs.len(),
{
    if srcs.len() > 0 {
        let pre = srcs.drop_last();
        lemma_open_segments_distinct(pre, num_docs);
        lemma_open_segments_ids(pre, num_docs);
        let opened = spec_open_segments(srcs, num_docs);
        let opened_pre = spec_open_segments(pre, num_docs);
        assert forall|a: int, b: int| 0 <= a < b < opened.len() implies (
        #[trigger] opened[a]).seg_id != (#[trigger] opened[b]).seg_id by {
            if b < opened_pre.len() {
                assert(opened[a] == opened_pre[a]);
                assert(opened[b] == opened_pre[b]);
            } else if b == opened_pre.len() && opened.len() > opened_pre.len() {
                assert(opened[b].seg_id == srcs.last().seg_id);
                assert(opened[a] == opened_pre[a]);
                let m = choose|m: int|
                    0 <= m < pre.len() && (#[trigger] pre[m]).seg_id == opened_pre[a].seg_id;
                assert(srcs[m].seg_id != srcs[srcs.len() - 1].seg_id);
            }
        }
    }
}

/// Every loaded segment's id is some source's id.
proof fn lemma_open_segments_ids(srcs: Seq<SegmentSourceView>, num_docs: u64)
    ensures
        forall|k: int|
            #![trigger spec_open_segments(srcs, num_docs)[k]]
            0 <= k < spec_open_segments(srcs, num_docs).len() ==> exists|m: int|
                0 <= m < srcs.len() && (#[trigger] srcs[m]).seg_id == spec_open_segments(
                    srcs,
                    num_docs,
                )[k].seg_id,
    decreases srcs.len(),
{
    if srcs.len() > 0 {
        let pre = srcs.drop_last();
        lemma_open_segments_ids(pre, num_docs);
        let opened = spec_open_segments(srcs, num_docs);
        let opened_pre = spec_open_segments(pre, num_docs);
        assert forall|k: int|
            #![trigger spec_open_segments(srcs, num_docs)[k]]
            0 <= k < opened.len() implies exists|m: int|
            0 <= m < srcs.len() && (#[trigger] srcs[m]).seg_id == spec_open_segments(
            srcs,
            num_docs,
        )[k].seg_id by {
            if k < opened_pre.len() {
                assert(opened[k] == opened_pre[k]);
                let m = choose|m: int|
                    0 <= m < pre.len() && (#[trigger] pre[m]).seg_id == opened_pre[k].seg_id;
                assert(srcs[m].seg_id == opened[k].seg_id);
            } else {
                assert(opened[k].seg_id == srcs[srcs.len() - 1].seg_id);
            }
        }
    }
}


/// After one document is added, every entry's postings stay bounded by the
/// store and grow by at most one posting.
proof fn lemma_mem_after_add(
    pre: Seq<TermPostingsView>,
    post: Seq<TermPostingsView>,
    doc_id: u64,
    tv: Seq<Seq<char>>,
    n: u64,
    dc: u64,
)
    requires
        distinct_terms(pre),
        distinct_terms(post),
        forall|t: Seq<char>| #[trigger] term_list(post, t) == mem_list_after(pre, doc_id, tv, t),
        mem_docs_bounded(pre, n),
        doc_id < n,
        forall|i: int| 0 <= i < pre.len() ==> (#[trigger] pre[i].list).len() <= dc,
    ensures
        mem_docs_bounded(post, n),
        forall|i: int| 0 <= i < post.len() ==> (#[trigger] post[i].list).len() <= dc + 1,
{
    assert forall|i: int, k: int|
        0 <= i < post.len() && 0 <= k < post[i].list.len() implies (
    #[trigger] post[i].list[k]).doc_id < n by {
        lemma_mem_after_add_entry(pre, post, doc_id, tv, n, dc, i);
    }
    assert forall|i: int| 0 <= i < post.len() implies (#[trigger] post[i].list).len() <= dc
        + 1 by {
        lemma_mem_after_add_entry(pre, post, doc_id, tv, n, dc, i);
    }
}

/// One entry of the segment after an added document: its postings are the
/// old ones, possibly extended by the new document's posting.
proof fn lemma_mem_after_add_entry(
    pre: Seq<TermPostingsView>,
    post: Seq<TermPostingsView>,
    doc_id: u64,
    tv: Seq<Seq<char>>,
    n: u64,
    dc: u64,
    i: int,
)
    requires
        distinct_terms(pre),
        distinct_terms(post),
        forall|t: Seq<char>| #[trigger] term_list(post, t) == mem_list_after(pre, doc_id, tv, t),
        mem_docs_bounded(pre, n),
        doc_id < n,
        forall|a: int| 0 <= a < pre.len() ==> (#[trigger] pre[a].list).len() <= dc,
        0 <= i < post.len(),
    ensures
        post[i].list.len() <= dc + 1,
        forall|k: int| 0 <= k < post[i].list.len() ==> (#[trigger] post[i].list[k]).doc_id < n,
{
    lemma_term_index_of(post, i);
    let t = post[i].term;
    assert(term_list(post, t) == post[i].list);
    assert(term_list(post, t) == mem_list_after(pre, doc_id, tv, t));
    let base = term_list(pre, t);
    if has_term(pre, t) {
        let j = term_index(pre, t);
        assert(0 <= j < pre.len() && pre[j].term == t);
        assert(base == pre[j].list);
        assert(base.len() <= dc);
        assert(forall|k: int|
            0 <= k < pre[j].list.len() ==> (#[trigger] pre[j].list[k]).doc_id < n);
    } else {
        assert(base =~= Seq::<Posting>::empty());
    }
    if occ_count(tv, t) > 0 {
        assert(post[i].list == base.push(
            (Posting { doc_id, tf: occ_count(tv, t) as u32 }),
        ));
        assert forall|k: int| 0 <= k < post[i].list.len() implies (
        #[trigger] post[i].list[k]).doc_id < n by {
            if k < base.len() {
                assert(post[i].list[k] == base[k]);
            } else {
                assert(post[i].list[k].doc_id == doc_id);
            }
        }
    } else {
        assert(post[i].list == base);
    }
}

impl MainIndex {
    /// Adds one document.  An empty token list is a no-op.  Otherwise the
    /// path gets its id (issued now if new), one posting per distinct term
    /// joins the buffer, the document's indexed-at stamp becomes `now`, and
    /// — when the buffer reaches the threshold — the buffer is flushed as a
    /// new on-disk segment whose two files are returned for the caller to
    /// write under `segment_{id}` of the index directory.
    pub fn add_document(&mut self, doc_path: &str, terms: &Vec<String>, now: Timestamp) -> (r:
        Option<SegmentFiles>)
        requires
            old(self).wf(),
            now.wf(),
            terms@.len() < 0x1_0000_0000,
            old(self).doc_store@.len() < 0xFFFF_FFFF_FFFF_FFFFu64,
            old(self).current_segment.doc_count < 0xFFFF_FFFFu64,
            old(self).next_segment < 0xFFFF_FFFF_FFFF_FFFFu64,
        ensures
            final(self).wf(),
            final(self).max_segment_docs == old(self).max_segment_docs,
            terms@.len() == 0 ==> r is None && *final(self) == *old(self),
            terms@.len() > 0 ==> {
                let id = old(self).doc_store.spec_assigned_id(doc_path@) as u64;
                let tv = terms@.map_values(|s: String| s@);
                &&& (old(self).doc_store.contains_path(doc_path@) ==> final(self).doc_store@
                    == old(self).doc_store@.update(
                    id as int,
                    (DocInfoView { path: doc_path@, indexed_at: now }),
                ))
                &&& (!old(self).doc_store.contains_path(doc_path@) ==> final(self).doc_store@
                    == old(self).doc_store@.push(
                    (DocInfoView { path: doc_path@, indexed_at: now }),
                ))
                &&& (r is Some <==> old(self).current_segment.doc_count + 1
                    >= old(self).max_segment_docs)
                &&& (r is None ==> {
                    &&& final(self).current_segment.doc_count == old(
                        self,
                    ).current_segment.doc_count + 1
                    &&& forall|t: Seq<char>|
                        #[trigger] term_list(final(self).current_segment@, t) == mem_list_after(
                            old(self).current_segment@,
                            id,
                            tv,
                            t,
                        )
                    &&& forall|t: Seq<char>|
                        #[trigger] has_term(final(self).current_segment@, t) == mem_has_after(
                            old(self).current_segment@,
                            tv,
                            t,
                        )
                    &&& seg_views(final(self).segments@) == seg_views(old(self).segments@)
                    &&& final(self).active_segments@ == old(self).active_segments@
                    &&& final(self).next_segment == old(self).next_segment
                })
                &&& (r matches Some(files) ==> {
                    &&& final(self).current_segment@ == Seq::<TermPostingsView>::empty()
                    &&& final(self).current_segment.doc_count == 0
                    &&& final(self).active_segments@ == old(self).active_segments@.push(
                        old(self).next_segment,
                    )
                    &&& final(self).next_segment == old(self).next_segment + 1
                    &&& seg_views(final(self).segments@).len() == old(self).segments@.len() + 1
                    &&& seg_views(final(self).segments@).drop_last() == seg_views(
                        old(self).segments@,
                    )
                    &&& new_segment_holds(
                        seg_views(final(self).segments@).last(),
                        files,
                        old(self).next_segment,
                        final(self).num_docs(),
                        old(self).current_segment@,
                        id,
                        tv,
                    )
                })
            },
    {
        if terms.len() == 0 {
            return None;
        }
        let ghost pre_mem = self.current_segment@;
        let ghost pre_dc = self.current_segment.doc_count;
        let ghost tv = terms@.map_values(|s: String| s@);
        let doc_id = self.doc_store.get_id(doc_path);
        proof {
            assert(old(self).doc_store@.len() <= self.doc_store@.len());
            assert forall|i: int| 0 <= i < self.segments@.len() implies seg_wf(
                #[trigger] seg_views(self.segments@)[i],
                self.num_docs(),
            ) by {
                lemma_seg_wf_monotone(
                    seg_views(self.segments@)[i],
                    old(self).num_docs(),
                    self.num_docs(),
                );
            }
        }
        self.current_segment.add_doc(doc_id, terms);
        proof {
            lemma_mem_after_add(
                pre_mem,
                self.current_segment@,
                doc_id,
                tv,
                self.num_docs(),
                pre_dc,
            );
            assert(tv[0] == terms@[0]@);
            crate::segment::lemma_occ_count_zero(tv, tv[0]);
            assert(occ_count(tv, tv[0]) > 0);
            assert(mem_has_after(pre_mem, tv, tv[0]));
            assert(has_term(self.current_segment@, tv[0]));
            assert(self.current_segment@.len() > 0);
        }
        let ghost store_mid = self.doc_store@;
        self.doc_store.set_indexed_at(doc_id, now);
        proof {
            assert(self.doc_store@.len() == store_mid.len());
            if old(self).doc_store.contains_path(doc_path@) {
                assert(store_mid == old(self).doc_store@);
                assert(store_mid[doc_id as int].path == doc_path@);
            } else {
                assert(store_mid == old(self).doc_store@.push(
                    (DocInfoView {
                        path: doc_path@,
                        indexed_at: Timestamp { secs: 0u64, nanos: 0u32 },
                    }),
                ));
                assert(doc_id == old(self).doc_store@.len());
                assert(self.doc_store@ =~= old(self).doc_store@.push(
                    (DocInfoView { path: doc_path@, indexed_at: now }),
                ));
            }
        }
        let ghost mid_mem = self.current_segment@;
        if self.current_segment.should_flush(self.max_segment_docs) {
            let seg_id = self.next_segment;
            let num = self.doc_store.total_docs();
            proof {
                assert forall|i: int| 0 <= i < mid_mem.len() implies (
                #[trigger] mid_mem[i].list).len() < 0x1_0000_0000 by {
                    assert(mid_mem[i].list.len() <= pre_dc + 1);
                }
            }
            let res = flush_segment(&mut self.current_segment, seg_id, num);
            match res {
                Some(fr) => {
                    let ghost segs0 = seg_views(self.segments@);
                    let ghost new_seg = fr.segment@;
                    let files = fr.files;
                    self.segments.push(fr.segment);
                    self.active_segments.push(seg_id);
                    self.next_segment = self.next_segment + 1;
                    proof {
                        assert(seg_views(self.segments@) =~= segs0.push(new_seg));
                        assert(seg_views(self.segments@).drop_last() =~= segs0);
                        assert forall|i: int| 0 <= i < self.segments@.len() implies seg_wf(
                            #[trigger] seg_views(self.segments@)[i],
                            self.num_docs(),
                        ) by {
                            if i < segs0.len() {
                                assert(seg_views(self.segments@)[i] == segs0[i]);
                            } else {
                                assert(seg_views(self.segments@)[i] == new_seg);
                            }
                        }
                        assert forall|i: int| 0 <= i < self.segments@.len() implies (
                        #[trigger] seg_views(self.segments@)[i]).seg_id
                            == self.active_segments@[i] by {
                            if i < segs0.len() {
                                assert(seg_views(self.segments@)[i] == segs0[i]);
                                assert(self.active_segments@[i]
                                    == old(self).active_segments@[i]);
                            }
                        }
                        // contents of the new segment, phrased against the
                        // buffer as it stood before this call
                        assert forall|t: Seq<char>| true implies #[trigger] dict_has_term(
                            new_seg.dict,
                            t,
                        ) == mem_has_after(pre_mem, tv, t) by {
                            assert(dict_has_term(new_seg.dict, t) == has_term(mid_mem, t));
                            assert(has_term(mid_mem, t) == mem_has_after(pre_mem, tv, t));
                        }
                        assert forall|a: int| 0 <= a < new_seg.dict.len() implies match
                            entry_postings(new_seg, a) {
                            Some(qs) => {
                                &&& qs.to_multiset() == mem_list_after(
                                    pre_mem,
                                    doc_id,
                                    tv,
                                    (#[trigger] new_seg.dict[a]).term,
                                ).to_multiset()
                                &&& qs.len() == mem_list_after(
                                    pre_mem,
                                    doc_id,
                                    tv,
                                    new_seg.dict[a].term,
                                ).len()
                            },
                            None => false,
                        } by {
                            assert(term_list(mid_mem, new_seg.dict[a].term) == mem_list_after(
                                pre_mem,
                                doc_id,
                                tv,
                                new_seg.dict[a].term,
                            ));
                        }
                    }
                    return Some(files);
                },
                None => {
                    proof {
                        assert(false);
                    }
                    return None;
                },
            }
        }
        None
    }
}

/// What holds of a freshly flushed segment `s` with files `files` and id
/// `seg_id`, relative to the buffer contents `pre` just before the document
/// `(id, tv)` was added: the segment is well formed against a store of
/// `num_docs` documents, its files load back to exactly `s`, its dictionary
/// has precisely the buffer's terms, and each term's run holds the buffer's
/// postings for it, sorted by document id.
pub open spec fn new_segment_holds(
    s: DiskSegmentView,
    files: SegmentFiles,
    seg_id: u64,
    num_docs: u64,
    pre: Seq<TermPostingsView>,
    id: u64,
    tv: Seq<Seq<char>>,
) -> bool {
    &&& s.seg_id == seg_id
    &&& files.seg_id == seg_id
    &&& seg_wf(s, num_docs)
    &&& spec_load_segment(seg_id, files.dict_bytes@, files.postings_bytes@, num_docs) == Some(s)
    &&& forall|t: Seq<char>| #[trigger] dict_has_term(s.dict, t) == mem_has_after(pre, tv, t)
    &&& forall|a: int|
        0 <= a < s.dict.len() ==> match entry_postings(s, a) {
            Some(qs) => {
                &&& qs.to_multiset() == mem_list_after(
                    pre,
                    id,
                    tv,
                    (#[trigger] s.dict[a]).term,
                ).to_multiset()
                &&& qs.len() == mem_list_after(pre, id, tv, s.dict[a].term).len()
            },
            None => false,
        }
}


/// What a commit hands back: the persisted document store, and the files of
/// the flushed residual segment if the buffer was non-empty.
pub struct CommitFiles {
    pub docstore_bytes: Vec<u8>,
    pub new_segment: Option<SegmentFiles>,
}

impl MainIndex {
    /// Commits: flushes the residual in-memory segment (if any) as a new
    /// segment and serialises the document store.  The caller writes the
    /// returned blobs: the store to `docstore.bin`, the segment files to
    /// their directory.  With an empty buffer the index is untouched and
    /// only the store blob is produced.
    pub fn commit(&mut self) -> (r: CommitFiles)
        requires
            old(self).wf(),
            old(self).next_segment < 0xFFFF_FFFF_FFFF_FFFFu64,
            old(self).current_segment.doc_count < 0x1_0000_0000u64,
        ensures
            final(self).wf(),
            final(self).doc_store@ == old(self).doc_store@,
            final(self).max_segment_docs == old(self).max_segment_docs,
            r.docstore_bytes@ == enc_store(old(self).doc_store@),
            old(self).current_segment.doc_count == 0 ==> r.new_segment is None && *final(self)
                == *old(self),
            old(self).current_segment.doc_count > 0 ==> {
                &&& final(self).current_segment@ == Seq::<TermPostingsView>::empty()
                &&& final(self).current_segment.doc_count == 0
                &&& final(self).active_segments@ == old(self).active_segments@.push(
                    old(self).next_segment,
                )
                &&& final(self).next_segment == old(self).next_segment + 1
                &&& seg_views(final(self).segments@).len() == old(self).segments@.len() + 1
                &&& seg_views(final(self).segments@).drop_last() == seg_views(
                    old(self).segments@,
                )
                &&& (r.new_segment matches Some(files) && new_segment_unchanged_holds(
                    seg_views(final(self).segments@).last(),
                    files,
                    old(self).next_segment,
                    final(self).num_docs(),
                    old(self).current_segment@,
                ))
            },
    {
        let mut new_segment: Option<SegmentFiles> = None;
        let ghost pre_mem = self.current_segment@;
        let ghost pre_dc = self.current_segment.doc_count;
        if self.current_segment.doc_count > 0 {
            let seg_id = self.next_segment;
            let num = self.doc_store.total_docs();
            proof {
                assert(pre_mem.len() > 0);
                assert forall|i: int| 0 <= i < pre_mem.len() implies (
                #[trigger] pre_mem[i].list).len() < 0x1_0000_0000 by {
                    assert(pre_mem[i].list.len() <= pre_dc);
                }
            }
            let res = flush_segment(&mut self.current_segment, seg_id, num);
            match res {
                Some(fr) => {
                    let ghost segs0 = seg_views(self.segments@);
                    let ghost new_seg = fr.segment@;
                    self.segments.push(fr.segment);
                    self.active_segments.push(seg_id);
                    self.next_segment = self.next_segment + 1;
                    new_segment = Some(fr.files);
                    proof {
                        assert(seg_views(self.segments@) =~= segs0.push(new_seg));
                        assert(seg_views(self.segments@).drop_last() =~= segs0);
                        assert forall|i: int| 0 <= i < self.segments@.len() implies seg_wf(
                            #[trigger] seg_views(self.segments@)[i],
                            self.num_docs(),
                        ) by {
                            if i < segs0.len() {
                                assert(seg_views(self.segments@)[i] == segs0[i]);
                            } else {
                                assert(seg_views(self.segments@)[i] == new_seg);
                            }
                        }
                        assert forall|i: int| 0 <= i < self.segments@.len() implies (
                        #[trigger] seg_views(self.segments@)[i]).seg_id
                            == self.active_segments@[i] by {
                            if i < segs0.len() {
                                assert(seg_views(self.segments@)[i] == segs0[i]);
                                assert(self.active_segments@[i]
                                    == old(self).active_segments@[i]);
                            }
                        }
                    }
                },
                None => {
                    proof {
                        assert(false);
                    }
                },
            }
        }
        let docstore_bytes = self.doc_store.persist();
        CommitFiles { docstore_bytes, new_segment }
    }
}

/// What holds of a segment flushed by `commit`, relative to the buffer
/// contents `pre` it drained: well formed, loading back to itself, with
/// exactly the buffer's terms and, per term, the buffer's postings.
pub open spec fn new_segment_unchanged_holds(
    s: DiskSegmentView,
    files: SegmentFiles,
    seg_id: u64,
    num_docs: u64,
    pre: Seq<TermPostingsView>,
) -> bool {
    &&& s.seg_id == seg_id
    &&& files.seg_id == seg_id
    &&& seg_wf(s, num_docs)
    &&& spec_load_segment(seg_id, files.dict_bytes@, files.postings_bytes@, num_docs) == Some(s)
    &&& forall|t: Seq<char>| #[trigger] dict_has_term(s.dict, t) == has_term(pre, t)
    &&& forall|a: int|
        0 <= a < s.dict.len() ==> match entry_postings(s, a) {
            Some(qs) => {
                &&& qs.to_multiset() == term_list(pre, (#[trigger] s.dict[a]).term).to_multiset()
                &&& qs.len() == term_list(pre, s.dict[a].term).len()
            },
            None => false,
        }
}


impl MainIndex {
    /// Answers a query: a two-pass scan over the active segments that
    /// yields the total document count, each query position's global
    /// document frequency, and the matched documents with their exact term
    /// hits and paths.  Buffered postings are invisible until a flush or
    /// commit.  The caller turns each hit into `tf × |ln(N/df)|`, sums per
    /// document, drops zero scores and orders descending.
    pub fn search(&self, q_tokens: &Vec<String>) -> (r: crate::search::SearchOutcome)
        requires
            self.wf(),
            q_tokens@.len() * self.segments@.len() < 0x1_0000_0000,
        ensures
            r.total_docs == self.doc_store@.len(),
            r.token_dfs@.len() == q_tokens@.len(),
            forall|j: int|
                0 <= j < q_tokens@.len() ==> (#[trigger] r.token_dfs@[j]) == crate::search::gdf(
                    seg_views(self.segments@),
                    crate::search::token_views(q_tokens@),
                    crate::search::token_views(q_tokens@)[j],
                ),
            crate::search::matches_correspond(
                r.matches@,
                crate::search::contribs(
                    seg_views(self.segments@),
                    crate::search::token_views(q_tokens@),
                ),
                self.doc_store@,
            ),
    {
        crate::search::execute_search(&self.doc_store, &self.segments, q_tokens)
    }
}

} // verus!
