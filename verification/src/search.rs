//! The search executor: a two-pass scan over the active segments.
//!
//! Pass one reads each segment's dictionary and accumulates, per query
//! token, the global document frequency — the sum of the per-segment
//! frequencies, once per occurrence of the token in the query.  Pass two
//! walks the recorded postings runs and gathers, per document, one hit per
//! posting and occurrence, in a fixed order: query tokens outermost, then
//! segments, then repeated occurrences, then the postings of the run.
//!
//! Scores are not computed here: the outcome carries the exact integer
//! data — total document count, global frequencies and per-document term
//! hits — from which the caller forms `tf × |ln(N/df)|` sums and orders
//! the documents.  Everything the caller needs is pinned by the contracts:
//! the matches are the documents of the contribution stream in first-hit
//! order, each with exactly its contributions.

use vstd::prelude::*;
use crate::disk::DictEntry;
use crate::disk::DiskSegment;
use crate::disk::DiskSegmentView;
use crate::disk::dict_has_term;
use crate::disk::dict_term_index;
use crate::disk::dict_views;
use crate::disk::entry_postings;
use crate::disk::read_entry_postings;
use crate::disk::seg_wf;
use crate::disk::postings_valid;
use crate::index::seg_views;
use crate::order::lemma_lex_lt_irrefl;
use crate::order::str_eq;
use crate::segment::Posting;
use crate::segment::occ_count;
use crate::segment::lemma_occ_count_le_len;
use crate::segment::lemma_occ_count_zero;
use crate::store::DocInfoView;
use crate::store::DocumentStore;

verus! {

/// The query tokens as character sequences.
pub open spec fn token_views(v: Seq<String>) -> Seq<Seq<char>> {
    v.map_values(|s: String| s@)
}

/// The document frequency a segment's dictionary records for `t` (zero when
/// the term is absent).
pub open spec fn seg_df(s: DiskSegmentView, t: Seq<char>) -> nat {
    if dict_has_term(s.dict, t) {
        s.dict[dict_term_index(s.dict, t)].info.df as nat
    } else {
        0
    }
}

/// The postings run a segment holds for `t` (empty when the term is
/// absent or its run does not decode).
pub open spec fn seg_plist(s: DiskSegmentView, t: Seq<char>) -> Seq<Posting> {
    if dict_has_term(s.dict, t) {
        match entry_postings(s, dict_term_index(s.dict, t)) {
            Some(ps) => ps,
            None => Seq::<Posting>::empty(),
        }
    } else {
        Seq::<Posting>::empty()
    }
}

/// The sum of the per-segment document frequencies of `t`.
pub open spec fn df_sum(ss: Seq<DiskSegmentView>, t: Seq<char>) -> nat
    decreases ss.len(),
{
    if ss.len() == 0 {
        0
    } else {
        df_sum(ss.drop_last(), t) + seg_df(ss.last(), t)
    }
}

/// The global document frequency of `t` for query `q`: the per-segment sum
/// counted once per occurrence of `t` in the query.
pub open spec fn gdf(ss: Seq<DiskSegmentView>, q: Seq<Seq<char>>, t: Seq<char>) -> nat {
    occ_count(q, t) * df_sum(ss, t)
}

/// `ps` repeated `k` times.
pub open spec fn rep_plist(ps: Seq<Posting>, k: nat) -> Seq<Posting>
    decreases k,
{
    if k == 0 {
        Seq::<Posting>::empty()
    } else {
        rep_plist(ps, (k - 1) as nat) + ps
    }
}

/// All postings pass two reads for one occurrence of token `t`: each
/// segment's run for `t`, repeated once per occurrence of `t` in the query,
/// in segment order.
pub open spec fn token_stream(ss: Seq<DiskSegmentView>, t: Seq<char>, occ: nat) -> Seq<Posting>
    decreases ss.len(),
{
    if ss.len() == 0 {
        Seq::<Posting>::empty()
    } else {
        token_stream(ss.drop_last(), t, occ) + rep_plist(seg_plist(ss.last(), t), occ)
    }
}

/// One score contribution: the query position it came from and the posting.
pub struct SearchContrib {
    pub token: int,
    pub posting: Posting,
}

/// A postings run tagged with its query position.
pub open spec fn tag_stream(ps: Seq<Posting>, j: int) -> Seq<SearchContrib> {
    ps.map_values(|p: Posting| SearchContrib { token: j, posting: p })
}

/// All contributions of the first `j` query positions, in pass order.
pub open spec fn contribs_upto(ss: Seq<DiskSegmentView>, q: Seq<Seq<char>>, j: int) -> Seq<
    SearchContrib,
>
    decreases j,
{
    if j <= 0 {
        Seq::<SearchContrib>::empty()
    } else {
        contribs_upto(ss, q, j - 1) + tag_stream(
            token_stream(ss, q[j - 1], occ_count(q, q[j - 1])),
            j - 1,
        )
    }
}

/// All contributions of the whole query.
pub open spec fn contribs(ss: Seq<DiskSegmentView>, q: Seq<Seq<char>>) -> Seq<SearchContrib> {
    contribs_upto(ss, q, q.len() as int)
}

/// The documents of a contribution stream, in order of first contribution,
/// each once.
pub open spec fn docs_of(cs: Seq<SearchContrib>) -> Seq<u64>
    decreases cs.len(),
{
    if cs.len() == 0 {
        Seq::<u64>::empty()
    } else {
        let pre = docs_of(cs.drop_last());
        if pre.contains(cs.last().posting.doc_id) {
            pre
        } else {
            pre.push(cs.last().posting.doc_id)
        }
    }
}

/// The hits of one document: its contributions, in stream order, as
/// `(query position, term frequency)` pairs.
pub open spec fn hits_for(cs: Seq<SearchContrib>, d: u64) -> Seq<(int, u32)>
    decreases cs.len(),
{
    if cs.len() == 0 {
        Seq::<(int, u32)>::empty()
    } else {
        hits_for(cs.drop_last(), d) + (if cs.last().posting.doc_id == d {
            seq![(cs.last().token, cs.last().posting.tf)]
        } else {
            Seq::<(int, u32)>::empty()
        })
    }
}

/// One hit of one matched document: the query position and the term
/// frequency the posting recorded.
#[derive(Clone, Copy, PartialEq, Eq, Structural, Debug)]
pub struct TokenHit {
    pub token: usize,
    pub tf: u32,
}

/// One matched document with all its hits.
pub struct SearchMatch {
    pub doc_id: u64,
    pub path: String,
    pub hits: Vec<TokenHit>,
}

/// What a search returns: the store's document count, the global document
/// frequency of each query position, and the matched documents.
pub struct SearchOutcome {
    pub total_docs: u64,
    pub token_dfs: Vec<u64>,
    pub matches: Vec<SearchMatch>,
}

/// The hit views of a hit vector.
pub open spec fn hit_views(hs: Seq<TokenHit>) -> Seq<(int, u32)> {
    hs.map_values(|h: TokenHit| (h.token as int, h.tf))
}

/// The document ids of a match list.
pub open spec fn match_docs(ms: Seq<SearchMatch>) -> Seq<u64> {
    ms.map_values(|m: SearchMatch| m.doc_id)
}

/// The matches represent the contribution stream `cs` exactly: their ids
/// are the stream's documents in first-hit order, each match carries
/// precisely its document's hits, and each path is the store's path for
/// that id.
pub open spec fn matches_correspond(
    ms: Seq<SearchMatch>,
    cs: Seq<SearchContrib>,
    docs: Seq<DocInfoView>,
) -> bool {
    &&& match_docs(ms) == docs_of(cs)
    &&& forall|k: int|
        0 <= k < ms.len() ==> #[trigger] hit_views(ms[k].hits@) == hits_for(cs, ms[k].doc_id)
    &&& forall|k: int| 0 <= k < ms.len() ==> (#[trigger] ms[k].doc_id) < docs.len()
    &&& forall|k: int|
        0 <= k < ms.len() ==> (#[trigger] ms[k].path)@ == docs[ms[k].doc_id as int].path
}

/// A strictly ordered dictionary has distinct terms.
pub proof fn lemma_dict_distinct(s: DiskSegmentView, n: u64)
    requires
        seg_wf(s, n),
    ensures
        forall|a: int, b: int|
            0 <= a < b < s.dict.len() ==> (#[trigger] s.dict[a]).term != (
            #[trigger] s.dict[b]).term,
{
    assert forall|a: int, b: int| 0 <= a < b < s.dict.len() implies (#[trigger] s.dict[a]).term
        != (#[trigger] s.dict[b]).term by {
        if s.dict[a].term == s.dict[b].term {
            lemma_lex_lt_irrefl(s.dict[a].term);
        }
    }
}

/// Finds the dictionary entry of `t`, if any.  Terms must be distinct so
/// the found index is the lookup index.
pub fn dict_find(dict: &Vec<DictEntry>, t: &str) -> (r: Option<usize>)
    requires
        forall|a: int, b: int|
            0 <= a < b < dict_views(dict@).len() ==> (#[trigger] dict_views(dict@)[a]).term != (
            #[trigger] dict_views(dict@)[b]).term,
    ensures
        match r {
            Some(i) => i < dict@.len() && dict_views(dict@)[i as int].term == t@ && dict_has_term(
                dict_views(dict@),
                t@,
            ) && dict_term_index(dict_views(dict@), t@) == i,
            None => !dict_has_term(dict_views(dict@), t@),
        },
{
    let ghost dv = dict_views(dict@);
    let n = dict.len();
    let mut i: usize = 0;
    while i < n
        invariant
            i <= n,
            n == dict@.len(),
            dv == dict_views(dict@),
            forall|a: int, b: int|
                0 <= a < b < dv.len() ==> (#[trigger] dv[a]).term != (#[trigger] dv[b]).term,
            forall|k: int| 0 <= k < i ==> (#[trigger] dv[k]).term != t@,
        decreases n - i,
    {
        if str_eq(dict[i].term.as_str(), t) {
            proof {
                assert(dv[i as int].term == t@);
                assert(dict_has_term(dv, t@));
                let c = dict_term_index(dv, t@);
                if c < i as int {
                    assert(dv[c].term != dv[i as int].term);
                } else if c > i as int {
                    assert(dv[i as int].term != dv[c].term);
                }
            }
            return Some(i);
        }
        i = i + 1;
    }
    None
}

/// Counts how often the token at position `i` occurs in the whole query.
pub fn count_token(q: &Vec<String>, i: usize) -> (c: u64)
    requires
        i < q@.len(),
    ensures
        c == occ_count(token_views(q@), token_views(q@)[i as int]),
        c >= 1,
{
    let ghost qv = token_views(q@);
    let ghost t = qv[i as int];
    let n = q.len();
    let mut c: u64 = 0;
    let mut k: usize = 0;
    proof {
        assert(qv.take(0) =~= Seq::<Seq<char>>::empty());
    }
    while k < n
        invariant
            k <= n,
            i < n,
            n == q@.len(),
            qv == token_views(q@),
            t == qv[i as int],
            c == occ_count(qv.take(k as int), t),
            c <= k,
        decreases n - k,
    {
        proof {
            assert(qv[k as int] == q@[k as int]@);
            assert(qv.take(k + 1) =~= qv.take(k as int).push(qv[k as int]));
            crate::segment::lemma_occ_count_push(qv.take(k as int), qv[k as int], t);
        }
        if str_eq(q[k].as_str(), q[i].as_str()) {
            c = c + 1;
        }
        k = k + 1;
    }
    proof {
        assert(qv.take(n as int) =~= qv);
        assert(qv[i as int] == q@[i as int]@);
        lemma_occ_count_zero(qv, t);
    }
    c
}


/// A document is among a stream's documents exactly when it has a
/// contribution; a document with no contribution has no hits.
proof fn lemma_docs_of_membership(cs: Seq<SearchContrib>, d: u64)
    ensures
        docs_of(cs).contains(d) <==> exists|i: int|
            0 <= i < cs.len() && (#[trigger] cs[i]).posting.doc_id == d,
        !docs_of(cs).contains(d) ==> hits_for(cs, d) == Seq::<(int, u32)>::empty(),
    decreases cs.len(),
{
    if cs.len() > 0 {
        let pre = cs.drop_last();
        lemma_docs_of_membership(pre, d);
        assert(forall|i: int| 0 <= i < pre.len() ==> (#[trigger] pre[i]) == cs[i]);
        if docs_of(cs).contains(d) {
            if docs_of(pre).contains(d) {
                let i = choose|i: int| 0 <= i < pre.len() && (#[trigger] pre[i]).posting.doc_id == d;
                assert(cs[i].posting.doc_id == d);
            } else {
                assert(cs.last().posting.doc_id == d);
                assert(cs[cs.len() - 1].posting.doc_id == d);
            }
        }
        if exists|i: int| 0 <= i < cs.len() && (#[trigger] cs[i]).posting.doc_id == d {
            let i = choose|i: int| 0 <= i < cs.len() && (#[trigger] cs[i]).posting.doc_id == d;
            if i < cs.len() - 1 {
                assert(pre[i].posting.doc_id == d);
                assert(docs_of(pre).contains(d));
                if !docs_of(pre).contains(cs.last().posting.doc_id) {
                    assert(docs_of(cs) == docs_of(pre).push(cs.last().posting.doc_id));
                    assert(docs_of(cs).contains(d)) by {
                        assert(docs_of(cs)[docs_of(pre).len() as int - 1 + 1 - 1]
                            == docs_of(pre)[docs_of(pre).len() - 1] || true);
                        let w = choose|w: int|
                            0 <= w < docs_of(pre).len() && docs_of(pre)[w] == d;
                        assert(docs_of(cs)[w] == d);
                    }
                } else {
                    assert(docs_of(cs) == docs_of(pre));
                }
            } else {
                assert(cs.last().posting.doc_id == d);
                if docs_of(pre).contains(d) {
                    assert(docs_of(cs) == docs_of(pre));
                } else {
                    assert(docs_of(cs) == docs_of(pre).push(d));
                    assert(docs_of(cs)[docs_of(cs).len() - 1] == d);
                }
            }
        }
        if !docs_of(cs).contains(d) {
            assert(!docs_of(pre).contains(d)) by {
                if docs_of(pre).contains(d) {
                    let w = choose|w: int|
                        0 <= w < docs_of(pre).len() && docs_of(pre)[w] == d;
                    if docs_of(pre).contains(cs.last().posting.doc_id) {
                        assert(docs_of(cs)[w] == d);
                    } else {
                        assert(docs_of(cs)[w] == d);
                    }
                }
            }
            assert(cs.last().posting.doc_id != d) by {
                if cs.last().posting.doc_id == d {
                    if docs_of(pre).contains(d) {
                    } else {
                        assert(docs_of(cs) == docs_of(pre).push(d));
                        assert(docs_of(cs)[docs_of(cs).len() - 1] == d);
                    }
                }
            }
            assert(hits_for(cs, d) =~= hits_for(pre, d));
        }
    }
}

/// Files one contribution: the posting's document gains a hit, or a new
/// match when this is its first contribution.
fn add_contrib(
    matches: &mut Vec<SearchMatch>,
    store: &DocumentStore,
    j: usize,
    p: Posting,
    Ghost(cs): Ghost<Seq<SearchContrib>>,
)
    requires
        store.wf(),
        p.doc_id < store@.len(),
        matches_correspond(old(matches)@, cs, store@),
    ensures
        matches_correspond(
            final(matches)@,
            cs.push((SearchContrib { token: j as int, posting: p })),
            store@,
        ),
{
    let ghost c = SearchContrib { token: j as int, posting: p };
    let ghost cs2 = cs.push(c);
    proof {
        assert(cs2.drop_last() =~= cs);
        assert(cs2.last() == c);
    }
    let d = p.doc_id;
    let n = matches.len();
    let mut k: usize = 0;
    while k < n
        invariant
            k <= n,
            n == matches@.len(),
            store.wf(),
            p.doc_id < store@.len(),
            d == p.doc_id,
            c == (SearchContrib { token: j as int, posting: p }),
            cs2 == cs.push(c),
            cs2.drop_last() == cs,
            cs2.last() == c,
            matches_correspond(matches@, cs, store@),
            matches@ == old(matches)@,
            forall|a: int| 0 <= a < k ==> (#[trigger] matches@[a]).doc_id != d,
        decreases n - k,
    {
        if matches[k].doc_id == d {
            let ghost ms0 = matches@;
            let mut entry = matches.remove(k);
            entry.hits.push(TokenHit { token: j, tf: p.tf });
            matches.insert(k, entry);
            proof {
                let ms = matches@;
                assert(ms.len() == ms0.len());
                assert(forall|a: int| 0 <= a < ms.len() && a != k ==> (#[trigger] ms[a]) == ms0[a]);
                assert(ms[k as int].doc_id == d);
                assert(ms[k as int].path == ms0[k as int].path);
                assert(ms[k as int].hits@ == ms0[k as int].hits@.push(
                    (TokenHit { token: j, tf: p.tf }),
                ));
                assert(match_docs(ms) =~= match_docs(ms0));
                assert(match_docs(ms0)[k as int] == d);
                assert(match_docs(ms0).contains(d));
                assert(docs_of(cs2) == docs_of(cs));
                assert forall|a: int| 0 <= a < ms.len() implies #[trigger] hit_views(ms[a].hits@)
                    == hits_for(cs2, ms[a].doc_id) by {
                    if a == k as int {
                        assert(hit_views(ms[a].hits@) =~= hit_views(ms0[a].hits@).push(
                            ((j as int, p.tf)),
                        ));
                        assert(hits_for(cs2, d) =~= hits_for(cs, d).push(((j as int, p.tf))));
                    } else {
                        assert(ms[a] == ms0[a]);
                        assert(ms[a].doc_id != d) by {
                            if a < k as int {
                                assert(ms0[a].doc_id != d);
                            } else {
                                // distinct documents: both a and k appear in
                                // the duplicate-free docs_of sequence
                                lemma_docs_of_distinct(cs);
                                assert(match_docs(ms0)[a] == ms0[a].doc_id);
                                assert(match_docs(ms0)[k as int] == d);
                            }
                        }
                        assert(hits_for(cs2, ms[a].doc_id) =~= hits_for(cs, ms[a].doc_id));
                    }
                }
                assert forall|a: int| 0 <= a < ms.len() implies (#[trigger] ms[a]).doc_id
                    < store@.len() by {
                    if a != k as int {
                        assert(ms[a] == ms0[a]);
                    }
                }
                assert forall|a: int| 0 <= a < ms.len() implies (#[trigger] ms[a]).path@
                    == store@[ms[a].doc_id as int].path by {
                    if a != k as int {
                        assert(ms[a] == ms0[a]);
                    } else {
                        assert(ms0[a].path@ == store@[ms0[a].doc_id as int].path);
                    }
                }
            }
            return ;
        }
        k = k + 1;
    }
    let path = match store.get_path(d) {
        Some(pth) => clone_string(pth),
        None => {
            proof {
                assert(false);
            }
            String::new()
        },
    };
    let mut hits: Vec<TokenHit> = Vec::new();
    hits.push(TokenHit { token: j, tf: p.tf });
    let ghost ms0 = matches@;
    matches.push(SearchMatch { doc_id: d, path, hits });
    proof {
        let ms = matches@;
        assert(forall|a: int| 0 <= a < ms0.len() ==> (#[trigger] ms[a]) == ms0[a]);
        assert(!match_docs(ms0).contains(d)) by {
            if match_docs(ms0).contains(d) {
                let w = choose|w: int| 0 <= w < match_docs(ms0).len() && match_docs(ms0)[w] == d;
                assert(ms0[w].doc_id == d);
            }
        }
        assert(docs_of(cs2) == docs_of(cs).push(d));
        assert(match_docs(ms) =~= match_docs(ms0).push(d));
        lemma_docs_of_membership(cs, d);
        assert(hits_for(cs, d) == Seq::<(int, u32)>::empty());
        assert forall|a: int| 0 <= a < ms.len() implies #[trigger] hit_views(ms[a].hits@)
            == hits_for(cs2, ms[a].doc_id) by {
            if a < ms0.len() {
                assert(ms[a] == ms0[a]);
                assert(ms[a].doc_id != d) by {
                    if ms0[a].doc_id == d {
                        assert(match_docs(ms0)[a] == d);
                    }
                }
                assert(hits_for(cs2, ms[a].doc_id) =~= hits_for(cs, ms[a].doc_id));
            } else {
                assert(ms[a].doc_id == d);
                assert(hit_views(ms[a].hits@) =~= seq![(j as int, p.tf)]);
                assert(hits_for(cs2, d) =~= hits_for(cs, d) + seq![(j as int, p.tf)]);
                assert(hits_for(cs2, d) =~= seq![(j as int, p.tf)]);
            }
        }
        assert forall|a: int| 0 <= a < ms.len() implies (#[trigger] ms[a]).doc_id
            < store@.len() by {
            if a < ms0.len() {
                assert(ms[a] == ms0[a]);
            }
        }
        assert forall|a: int| 0 <= a < ms.len() implies (#[trigger] ms[a]).path@
            == store@[ms[a].doc_id as int].path by {
            if a < ms0.len() {
                assert(ms[a] == ms0[a]);
                assert(ms0[a].path@ == store@[ms0[a].doc_id as int].path);
            }
        }
    }
}

/// The documents of a stream are listed once each.
pub proof fn lemma_docs_of_distinct(cs: Seq<SearchContrib>)
    ensures
        forall|a: int, b: int|
            0 <= a < b < docs_of(cs).len() ==> docs_of(cs)[a] != docs_of(cs)[b],
    decreases cs.len(),
{
    if cs.len() > 0 {
        let pre = cs.drop_last();
        lemma_docs_of_distinct(pre);
        let ds = docs_of(cs);
        let dp = docs_of(pre);
        assert forall|a: int, b: int| 0 <= a < b < ds.len() implies ds[a] != ds[b] by {
            if !dp.contains(cs.last().posting.doc_id) && b == dp.len() {
                assert(ds[b] == cs.last().posting.doc_id);
                assert(ds[a] == dp[a]);
                if ds[a] == ds[b] {
                    assert(dp.contains(ds[b]));
                }
            } else {
                assert(ds[a] == dp[a] && ds[b] == dp[b]);
            }
        }
    }
}

/// Relies on `String::clone` via vstd's specification: copies the
/// characters.
fn clone_string(s: &String) -> (r: String)
    ensures
        r@ == s@,
{
    s.clone()
}


/// Repeating the empty run gives the empty run.
proof fn lemma_rep_empty(k: nat)
    ensures
        rep_plist(Seq::<Posting>::empty(), k) == Seq::<Posting>::empty(),
    decreases k,
{
    if k > 0 {
        lemma_rep_empty((k - 1) as nat);
        assert(rep_plist(Seq::<Posting>::empty(), k) =~= Seq::<Posting>::empty());
    }
}

/// A token recorded in no dictionary contributes nothing.
proof fn lemma_stream_empty(ss: Seq<DiskSegmentView>, t: Seq<char>, occ: nat, n: u64)
    requires
        df_sum(ss, t) == 0,
        forall|i: int| 0 <= i < ss.len() ==> seg_wf(#[trigger] ss[i], n),
    ensures
        token_stream(ss, t, occ) == Seq::<Posting>::empty(),
    decreases ss.len(),
{
    if ss.len() > 0 {
        let pre = ss.drop_last();
        assert(forall|i: int| 0 <= i < pre.len() ==> (#[trigger] pre[i]) == ss[i]);
        lemma_stream_empty(pre, t, occ, n);
        let last = ss.last();
        assert(seg_wf(ss[ss.len() - 1], n));
        assert(seg_df(last, t) == 0);
        if dict_has_term(last.dict, t) {
            let idx = dict_term_index(last.dict, t);
            assert(last.dict[idx].info.df == 0);
            assert(match entry_postings(last, idx) {
                Some(ps) => ps.len() == last.dict[idx].info.df && postings_valid(ps, n),
                None => false,
            });
            let ps = entry_postings(last, idx)->Some_0;
            assert(ps.len() == 0);
            assert(ps =~= Seq::<Posting>::empty());
            assert(seg_plist(last, t) == ps);
        }
        assert(seg_plist(last, t) =~= Seq::<Posting>::empty());
        lemma_rep_empty(occ);
        assert(token_stream(ss, t, occ) =~= Seq::<Posting>::empty());
    }
}

/// Runs the two-pass search over the store and the loaded segments.
///
/// The outcome is pinned exactly: `total_docs` is the store's count, each
/// query position's entry of `token_dfs` is its global document frequency,
/// and the matches list the contribution stream's documents in first-hit
/// order, each with precisely its hits and its stored path.
pub fn execute_search(
    store: &DocumentStore,
    segments: &Vec<DiskSegment>,
    q_tokens: &Vec<String>,
) -> (r: SearchOutcome)
    requires
        store.wf(),
        forall|i: int|
            0 <= i < segments@.len() ==> seg_wf(
                #[trigger] seg_views(segments@)[i],
                store@.len() as u64,
            ),
        q_tokens@.len() * segments@.len() < 0x1_0000_0000,
    ensures
        r.total_docs == store@.len(),
        r.token_dfs@.len() == q_tokens@.len(),
        forall|j: int|
            0 <= j < q_tokens@.len() ==> (#[trigger] r.token_dfs@[j]) == gdf(
                seg_views(segments@),
                token_views(q_tokens@),
                token_views(q_tokens@)[j],
            ),
        matches_correspond(
            r.matches@,
            contribs(seg_views(segments@), token_views(q_tokens@)),
            store@,
        ),
{
    let ghost ss = seg_views(segments@);
    let ghost qv = token_views(q_tokens@);
    let qn = q_tokens.len();
    let sn = segments.len();
    let num_docs = store.total_docs();

    // Pass 1: global document frequencies.
    let mut token_dfs: Vec<u64> = Vec::new();
    let mut occs: Vec<u64> = Vec::new();
    let mut j: usize = 0;
    while j < qn
        invariant
            j <= qn,
            qn == q_tokens@.len(),
            sn == segments@.len(),
            ss == seg_views(segments@),
            qv == token_views(q_tokens@),
            qn * sn < 0x1_0000_0000,
            store.wf(),
            num_docs == store@.len(),
            forall|i: int| 0 <= i < sn ==> seg_wf(#[trigger] ss[i], num_docs),
            token_dfs@.len() == j,
            occs@.len() == j,
            forall|jj: int|
                0 <= jj < j ==> (#[trigger] token_dfs@[jj]) == gdf(ss, qv, qv[jj]),
            forall|jj: int| 0 <= jj < j ==> (#[trigger] occs@[jj]) == occ_count(qv, qv[jj]),
        decreases qn - j,
    {
        let occ = count_token(q_tokens, j);
        proof {
            lemma_occ_count_le_len(qv, qv[j as int]);
        }
        let mut dsum: u64 = 0;
        let mut si: usize = 0;
        proof {
            assert(ss.take(0) =~= Seq::<DiskSegmentView>::empty());
        }
        while si < sn
            invariant
                si <= sn,
                j < qn,
                qn == q_tokens@.len(),
                sn == segments@.len(),
                ss == seg_views(segments@),
                qv == token_views(q_tokens@),
                qn * sn < 0x1_0000_0000,
                num_docs == store@.len(),
                forall|i: int| 0 <= i < sn ==> seg_wf(#[trigger] ss[i], num_docs),
                dsum == df_sum(ss.take(si as int), qv[j as int]),
                dsum <= si * 0xFFFF_FFFFu64,
            decreases sn - si,
        {
            proof {
                assert(ss[si as int] == segments@[si as int]@);
                assert(seg_wf(ss[si as int], num_docs));
                lemma_dict_distinct(ss[si as int], num_docs);
                assert(ss.take(si + 1) =~= ss.take(si as int).push(ss[si as int]));
                assert(ss.take(si + 1).drop_last() =~= ss.take(si as int));
                assert(ss.take(si + 1).last() == ss[si as int]);
                assert(sn < 0x1_0000_0000) by (nonlinear_arith)
                    requires
                        qn * sn < 0x1_0000_0000,
                        1 <= qn,
                ;
                assert((si + 1) as int * 0xFFFF_FFFF <= sn as int * 0xFFFF_FFFF)
                    by (nonlinear_arith)
                    requires
                        si + 1 <= sn,
                ;
                assert(sn as int * 0xFFFF_FFFF < 0x1_0000_0000_0000_0000) by (nonlinear_arith)
                    requires
                        sn < 0x1_0000_0000,
                ;
                assert(qv[j as int] == q_tokens@[j as int]@);
            }
            let found = dict_find(&segments[si].dict, q_tokens[j].as_str());
            match found {
                Some(idx) => {
                    let df = segments[si].dict[idx].info.df;
                    proof {
                        assert(ss[si as int].dict == dict_views(segments@[si as int].dict@));
                        assert(seg_df(ss[si as int], qv[j as int]) == df as nat);
                    }
                    dsum = dsum + df as u64;
                },
                None => {
                    proof {
                        assert(seg_df(ss[si as int], qv[j as int]) == 0);
                    }
                },
            }
            si = si + 1;
        }
        proof {
            assert(ss.take(sn as int) =~= ss);
            assert(occ <= qn);
            assert(occ as int * dsum as int <= qn as int * (sn as int * 0xFFFF_FFFF))
                by (nonlinear_arith)
                requires
                    occ <= qn,
                    dsum <= sn as int * 0xFFFF_FFFF,
                    0 <= dsum,
                    0 <= occ,
                    0 <= sn,
            ;
            assert(qn as int * (sn as int * 0xFFFF_FFFF) < 0x1_0000_0000_0000_0000)
                by (nonlinear_arith)
                requires
                    qn * sn < 0x1_0000_0000,
            ;
        }
        let g = occ * dsum;
        proof {
            assert(g == gdf(ss, qv, qv[j as int]));
        }
        token_dfs.push(g);
        occs.push(occ);
        j = j + 1;
    }

    // Pass 2: walk the recorded postings and gather hits per document.
    let mut matches: Vec<SearchMatch> = Vec::new();
    let ghost mut cs: Seq<SearchContrib> = Seq::<SearchContrib>::empty();
    proof {
        assert(cs =~= contribs_upto(ss, qv, 0));
        assert(match_docs(matches@) =~= docs_of(cs));
        assert(matches_correspond(matches@, cs, store@));
    }
    let mut j2: usize = 0;
    while j2 < qn
        invariant
            j2 <= qn,
            qn == q_tokens@.len(),
            sn == segments@.len(),
            ss == seg_views(segments@),
            qv == token_views(q_tokens@),
            qn * sn < 0x1_0000_0000,
            store.wf(),
            num_docs == store@.len(),
            forall|i: int| 0 <= i < sn ==> seg_wf(#[trigger] ss[i], num_docs),
            token_dfs@.len() == qn,
            occs@.len() == qn,
            forall|jj: int|
                0 <= jj < qn ==> (#[trigger] token_dfs@[jj]) == gdf(ss, qv, qv[jj]),
            forall|jj: int| 0 <= jj < qn ==> (#[trigger] occs@[jj]) == occ_count(qv, qv[jj]),
            cs == contribs_upto(ss, qv, j2 as int),
            matches_correspond(matches@, cs, store@),
        decreases qn - j2,
    {
        let ghost t = qv[j2 as int];
        let ghost base = cs;
        if token_dfs[j2] == 0 {
            proof {
                assert(occ_count(qv, t) * df_sum(ss, t) == 0);
                assert(qv[j2 as int] == q_tokens@[j2 as int]@);
                lemma_occ_count_zero(qv, t);
                assert(occ_count(qv, t) >= 1);
                assert(df_sum(ss, t) == 0) by (nonlinear_arith)
                    requires
                        occ_count(qv, t) * df_sum(ss, t) == 0,
                        occ_count(qv, t) >= 1,
                ;
                lemma_stream_empty(ss, t, occ_count(qv, t), num_docs);
                assert(tag_stream(token_stream(ss, t, occ_count(qv, t)), j2 as int)
                    =~= Seq::<SearchContrib>::empty());
                assert(cs =~= contribs_upto(ss, qv, j2 + 1));
            }
        } else {
            let occ = occs[j2];
            proof {
                assert(ss.take(0) =~= Seq::<DiskSegmentView>::empty());
                assert(tag_stream(token_stream(ss.take(0), t, occ as nat), j2 as int)
                    =~= Seq::<SearchContrib>::empty());
                assert(cs =~= base + tag_stream(
                    token_stream(ss.take(0), t, occ as nat),
                    j2 as int,
                ));
            }
            let mut si: usize = 0;
            while si < sn
                invariant
                    si <= sn,
                    j2 < qn,
                    qn == q_tokens@.len(),
                    sn == segments@.len(),
                    ss == seg_views(segments@),
                    qv == token_views(q_tokens@),
                    store.wf(),
                    num_docs == store@.len(),
                    forall|i: int| 0 <= i < sn ==> seg_wf(#[trigger] ss[i], num_docs),
                    t == qv[j2 as int],
                    occ == occ_count(qv, t),
                    cs == base + tag_stream(
                        token_stream(ss.take(si as int), t, occ as nat),
                        j2 as int,
                    ),
                    base == contribs_upto(ss, qv, j2 as int),
                    matches_correspond(matches@, cs, store@),
                decreases sn - si,
            {
                proof {
                    assert(ss[si as int] == segments@[si as int]@);
                    assert(seg_wf(ss[si as int], num_docs));
                    lemma_dict_distinct(ss[si as int], num_docs);
                    assert(ss.take(si + 1) =~= ss.take(si as int).push(ss[si as int]));
                    assert(ss.take(si + 1).drop_last() =~= ss.take(si as int));
                    assert(ss.take(si + 1).last() == ss[si as int]);
                    assert(qv[j2 as int] == q_tokens@[j2 as int]@);
                    assert(ss[si as int].dict == dict_views(segments@[si as int].dict@));
                }
                let found = dict_find(&segments[si].dict, q_tokens[j2].as_str());
                match found {
                    Some(idx) => {
                        proof {
                            assert(exists|n2: u64| seg_wf(segments@[si as int]@, n2)) by {
                                assert(seg_wf(segments@[si as int]@, num_docs));
                            }
                        }
                        let ps = read_entry_postings(&segments[si], idx);
                        let ghost pl = ps@;
                        let ghost seg_base = cs;
                        proof {
                            assert(entry_postings(ss[si as int], idx as int) == Some(pl));
                            assert(seg_plist(ss[si as int], t) == pl);
                            assert(postings_valid(pl, num_docs)) by {
                                assert(match entry_postings(ss[si as int], idx as int) {
                                    Some(qs) => qs.len() == ss[si as int].dict[
                                        idx as int
                                    ].info.df && postings_valid(qs, num_docs),
                                    None => false,
                                });
                            }
                            assert(rep_plist(pl, 0) =~= Seq::<Posting>::empty());
                            assert(token_stream(ss.take(si as int), t, occ as nat) + rep_plist(
                                pl,
                                0,
                            ) =~= token_stream(ss.take(si as int), t, occ as nat));
                        }
                        let mut rep_i: u64 = 0;
                        while rep_i < occ
                            invariant
                                rep_i <= occ,
                                si < sn,
                                j2 < qn,
                                qn == q_tokens@.len(),
                                sn == segments@.len(),
                                ss == seg_views(segments@),
                                qv == token_views(q_tokens@),
                                store.wf(),
                                num_docs == store@.len(),
                                t == qv[j2 as int],
                                occ == occ_count(qv, t),
                                pl == seg_plist(ss[si as int], t),
                                pl == ps@,
                                postings_valid(pl, num_docs),
                                seg_base == base + tag_stream(
                                    token_stream(ss.take(si as int), t, occ as nat),
                                    j2 as int,
                                ),
                                cs == base + tag_stream(
                                    token_stream(ss.take(si as int), t, occ as nat)
                                        + rep_plist(pl, rep_i as nat),
                                    j2 as int,
                                ),
                                base == contribs_upto(ss, qv, j2 as int),
                                matches_correspond(matches@, cs, store@),
                            decreases occ - rep_i,
                        {
                            let ghost rep_base = token_stream(ss.take(si as int), t, occ as nat)
                                + rep_plist(pl, rep_i as nat);
                            proof {
                                assert(pl.take(0) =~= Seq::<Posting>::empty());
                                assert(rep_base + pl.take(0) =~= rep_base);
                            }
                            let pn = ps.len();
                            let mut pi: usize = 0;
                            while pi < pn
                                invariant
                                    pi <= pn,
                                    pn == pl.len(),
                                    pl == ps@,
                                    si < sn,
                                    j2 < qn,
                                    qn == q_tokens@.len(),
                                    ss == seg_views(segments@),
                                    qv == token_views(q_tokens@),
                                    store.wf(),
                                    num_docs == store@.len(),
                                    t == qv[j2 as int],
                                    occ == occ_count(qv, t),
                                    postings_valid(pl, num_docs),
                                    rep_base == token_stream(ss.take(si as int), t, occ as nat)
                                        + rep_plist(pl, rep_i as nat),
                                    cs == base + tag_stream(rep_base + pl.take(pi as int), j2 as int),
                                    base == contribs_upto(ss, qv, j2 as int),
                                    matches_correspond(matches@, cs, store@),
                                decreases pn - pi,
                            {
                                let p = ps[pi];
                                proof {
                                    assert(pl[pi as int].doc_id < num_docs);
                                }
                                add_contrib(&mut matches, store, j2, p, Ghost(cs));
                                proof {
                                    let c = SearchContrib { token: j2 as int, posting: p };
                                    assert(pl.take(pi + 1) =~= pl.take(pi as int).push(p));
                                    assert(rep_base + pl.take(pi + 1) =~= (rep_base + pl.take(
                                        pi as int,
                                    )).push(p));
                                    assert(tag_stream((rep_base + pl.take(pi as int)).push(p),
                                        j2 as int) =~= tag_stream(
                                        rep_base + pl.take(pi as int),
                                        j2 as int,
                                    ).push(c));
                                    cs = cs.push(c);
                                    assert(cs =~= base + tag_stream(
                                        rep_base + pl.take(pi + 1),
                                        j2 as int,
                                    ));
                                }
                                pi = pi + 1;
                            }
                            proof {
                                assert(pl.take(pn as int) =~= pl);
                                assert(rep_plist(pl, (rep_i + 1) as nat) == rep_plist(
                                    pl,
                                    rep_i as nat,
                                ) + pl);
                                assert(rep_base + pl =~= token_stream(
                                    ss.take(si as int),
                                    t,
                                    occ as nat,
                                ) + rep_plist(pl, (rep_i + 1) as nat));
                            }
                            rep_i = rep_i + 1;
                        }
                        proof {
                            assert(token_stream(ss.take(si + 1), t, occ as nat) == token_stream(
                                ss.take(si as int),
                                t,
                                occ as nat,
                            ) + rep_plist(seg_plist(ss[si as int], t), occ as nat));
                        }
                    },
                    None => {
                        proof {
                            assert(!dict_has_term(ss[si as int].dict, t));
                            assert(seg_plist(ss[si as int], t) =~= Seq::<Posting>::empty());
                            lemma_rep_empty(occ as nat);
                            assert(token_stream(ss.take(si + 1), t, occ as nat)
                                =~= token_stream(ss.take(si as int), t, occ as nat));
                        }
                    },
                }
                si = si + 1;
            }
            proof {
                assert(ss.take(sn as int) =~= ss);
                assert(cs =~= contribs_upto(ss, qv, j2 + 1));
            }
        }
        j2 = j2 + 1;
    }
    proof {
        assert(contribs_upto(ss, qv, qn as int) == contribs(ss, qv));
    }
    SearchOutcome { total_docs: num_docs, token_dfs, matches }
}

} // verus!
