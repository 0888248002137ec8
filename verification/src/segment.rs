//! The in-memory segment: a buffer of postings for a batch of documents.
//!
//! A posting is the atomic index record: one `(doc_id, term_frequency)` pair
//! for one term in one document.  The segment maps each term to the list of
//! postings accumulated since the last flush, in insertion order, and counts
//! the documents added.  It is a write-only accumulator: queries never read
//! it, and a flush drains it onto disk.

use vstd::prelude::*;
use crate::order::str_eq;

verus! {

/// One posting: a document and how often the term occurs in it.
#[derive(Clone, Copy, PartialEq, Eq, Structural, Debug)]
pub struct Posting {
    pub doc_id: u64,
    pub tf: u32,
}

/// A term together with its accumulated postings.
pub struct TermPostings {
    pub term: String,
    pub list: Vec<Posting>,
}

/// The mathematical value of a `TermPostings`.
pub struct TermPostingsView {
    pub term: Seq<char>,
    pub list: Seq<Posting>,
}

impl View for TermPostings {
    type V = TermPostingsView;

    open spec fn view(&self) -> TermPostingsView {
        TermPostingsView { term: self.term@, list: self.list@ }
    }
}

/// The entry views of a vector of term postings.
pub open spec fn entry_views(v: Seq<TermPostings>) -> Seq<TermPostingsView> {
    v.map_values(|e: TermPostings| e@)
}

/// No two entries carry the same term.
pub open spec fn distinct_terms(sv: Seq<TermPostingsView>) -> bool {
    forall|i: int, j: int|
        0 <= i < j < sv.len() ==> (#[trigger] sv[i].term) != (#[trigger] sv[j].term)
}

/// True when some entry carries term `t`.
pub open spec fn has_term(sv: Seq<TermPostingsView>, t: Seq<char>) -> bool {
    exists|i: int| 0 <= i < sv.len() && sv[i].term == t
}

/// The index of the entry carrying term `t`, assuming one exists.
pub open spec fn term_index(sv: Seq<TermPostingsView>, t: Seq<char>) -> int {
    choose|i: int| 0 <= i < sv.len() && sv[i].term == t
}

/// The postings recorded for term `t`; empty when the term is absent.
pub open spec fn term_list(sv: Seq<TermPostingsView>, t: Seq<char>) -> Seq<Posting> {
    if has_term(sv, t) {
        sv[term_index(sv, t)].list
    } else {
        Seq::<Posting>::empty()
    }
}

/// With distinct terms, the entry at `i` is the one found for its term.
pub proof fn lemma_term_index_of(sv: Seq<TermPostingsView>, i: int)
    requires
        distinct_terms(sv),
        0 <= i < sv.len(),
    ensures
        has_term(sv, sv[i].term),
        term_index(sv, sv[i].term) == i,
        term_list(sv, sv[i].term) == sv[i].list,
{
    assert(has_term(sv, sv[i].term));
    let j = term_index(sv, sv[i].term);
    if j < i {
        assert(sv[j].term != sv[i].term);
    } else if j > i {
        assert(sv[i].term != sv[j].term);
    }
}

/// How often `t` occurs in `terms`.
pub open spec fn occ_count(terms: Seq<Seq<char>>, t: Seq<char>) -> nat
    decreases terms.len(),
{
    if terms.len() == 0 {
        0
    } else {
        occ_count(terms.drop_last(), t) + (if terms.last() == t {
            1nat
        } else {
            0nat
        })
    }
}

/// Counting over one more element.
pub proof fn lemma_occ_count_push(terms: Seq<Seq<char>>, x: Seq<char>, t: Seq<char>)
    ensures
        occ_count(terms.push(x), t) == occ_count(terms, t) + (if x == t {
            1nat
        } else {
            0nat
        }),
{
    assert(terms.push(x).drop_last() =~= terms);
    assert(terms.push(x).last() == x);
}

/// A term occurs zero times exactly when no position holds it.
pub proof fn lemma_occ_count_zero(terms: Seq<Seq<char>>, t: Seq<char>)
    ensures
        (occ_count(terms, t) == 0) == (forall|k: int| 0 <= k < terms.len() ==> terms[k] != t),
    decreases terms.len(),
{
    if terms.len() > 0 {
        let pre = terms.drop_last();
        lemma_occ_count_zero(pre, t);
        assert forall|k: int| 0 <= k < pre.len() implies #[trigger] pre[k] == terms[k] by {
            assert(terms.drop_last()[k] == terms[k]);
        }
        if forall|k: int| 0 <= k < terms.len() ==> terms[k] != t {
            assert(forall|k: int| 0 <= k < pre.len() ==> #[trigger] pre[k] != t);
            assert(occ_count(pre, t) == 0);
            assert(terms[terms.len() - 1] != t);
            assert(occ_count(terms, t) == 0);
        } else {
            assert(exists|k: int| 0 <= k < terms.len() && terms[k] == t);
            let k = choose|k: int| 0 <= k < terms.len() && terms[k] == t;
            if k == terms.len() - 1 {
                assert(terms.last() == t);
            } else {
                assert(pre[k] == t);
                assert(occ_count(pre, t) != 0);
            }
            assert(occ_count(terms, t) > 0);
        }
    }
}

/// A term occurs at most as often as the sequence is long.
pub proof fn lemma_occ_count_le_len(terms: Seq<Seq<char>>, t: Seq<char>)
    ensures
        occ_count(terms, t) <= terms.len(),
    decreases terms.len(),
{
    if terms.len() > 0 {
        lemma_occ_count_le_len(terms.drop_last(), t);
    }
}

/// Updating one entry's list to a pushed copy keeps the segment shape:
/// terms unchanged and distinct, lists non-empty, frequencies at least one.
proof fn lemma_shape_after_list_push(
    pre: Seq<TermPostingsView>,
    post: Seq<TermPostingsView>,
    i: int,
    p: Posting,
)
    requires
        0 <= i < pre.len(),
        post.len() == pre.len(),
        forall|k: int| 0 <= k < pre.len() && k != i ==> post[k] == (#[trigger] pre[k]),
        post[i].term == pre[i].term,
        post[i].list == pre[i].list.push(p),
        distinct_terms(pre),
        forall|a: int| 0 <= a < pre.len() ==> (#[trigger] pre[a].list).len() > 0,
        forall|a: int, k: int|
            0 <= a < pre.len() && 0 <= k < pre[a].list.len() ==> (#[trigger] pre[a].list[k]).tf
                >= 1,
        p.tf >= 1,
    ensures
        distinct_terms(post),
        forall|a: int| 0 <= a < post.len() ==> (#[trigger] post[a].list).len() > 0,
        forall|a: int, k: int|
            0 <= a < post.len() && 0 <= k < post[a].list.len() ==> (#[trigger] post[a].list[k]).tf
                >= 1,
{
    assert(forall|k: int| 0 <= k < pre.len() ==> (#[trigger] post[k].term) == pre[k].term);
    assert forall|a: int| 0 <= a < post.len() implies (#[trigger] post[a].list).len() > 0 by {
        assert(pre[a].list.len() > 0);
        if a != i {
            assert(post[a] == pre[a]);
        }
    }
    assert forall|a: int, k: int|
        0 <= a < post.len() && 0 <= k < post[a].list.len() implies (#[trigger] post[a].list[k]).tf
            >= 1 by {
        if a != i {
            assert(post[a] == pre[a]);
            assert(pre[a].list[k].tf >= 1);
        } else {
            assert(post[a].list == pre[i].list.push(p));
            if k < pre[i].list.len() {
                assert(post[a].list[k] == pre[i].list[k]);
                assert(pre[i].list[k].tf >= 1);
            } else {
                assert(k == pre[i].list.len());
                assert(post[a].list[k] == p);
            }
        }
    }
}

/// The postings a term holds after one document is added: unchanged when
/// the term does not occur, otherwise extended by one posting whose
/// frequency is the term's occurrence count.
pub open spec fn mem_list_after(
    pre: Seq<TermPostingsView>,
    doc_id: u64,
    tv: Seq<Seq<char>>,
    t: Seq<char>,
) -> Seq<Posting> {
    if occ_count(tv, t) > 0 {
        term_list(pre, t).push((Posting { doc_id, tf: occ_count(tv, t) as u32 }))
    } else {
        term_list(pre, t)
    }
}

/// Whether a term is present after one document is added.
pub open spec fn mem_has_after(
    pre: Seq<TermPostingsView>,
    tv: Seq<Seq<char>>,
    t: Seq<char>,
) -> bool {
    has_term(pre, t) || occ_count(tv, t) > 0
}

/// An in-memory segment: postings per term plus a document counter.
pub struct InMemorySegment {
    pub postings: Vec<TermPostings>,
    pub doc_count: u64,
}

impl View for InMemorySegment {
    type V = Seq<TermPostingsView>;

    open spec fn view(&self) -> Seq<TermPostingsView> {
        self.postings@.map_values(|e: TermPostings| e@)
    }
}

impl InMemorySegment {
    /// Terms are distinct, every postings list is non-empty, and every
    /// recorded term frequency is at least one.
    pub open spec fn wf(self) -> bool {
        &&& distinct_terms(self@)
        &&& forall|i: int| 0 <= i < self@.len() ==> (#[trigger] self@[i].list).len() > 0
        &&& forall|i: int, k: int|
            0 <= i < self@.len() && 0 <= k < self@[i].list.len() ==> (#[trigger] self@[i].list[k]).tf
                >= 1
        &&& forall|i: int|
            0 <= i < self@.len() ==> (#[trigger] self@[i].term).len() < 0x1_0000_0000_0000_0000
    }

    /// An empty segment.
    pub fn new() -> (r: InMemorySegment)
        ensures
            r@ == Seq::<TermPostingsView>::empty(),
            r.doc_count == 0,
            r.wf(),
    {
        let r = InMemorySegment { postings: Vec::new(), doc_count: 0 };
        proof {
            assert(r@ =~= Seq::<TermPostingsView>::empty());
        }
        r
    }

    /// True when the segment has reached the flush threshold.
    pub fn should_flush(&self, max_docs: u64) -> (r: bool)
        ensures
            r == (self.doc_count >= max_docs),
    {
        self.doc_count >= max_docs
    }

    /// Appends one posting to the list of `term`, creating the entry if the
    /// term is new.  Every other term's list is untouched.
    fn push_posting(&mut self, term: &str, p: Posting)
        requires
            old(self).wf(),
            p.tf >= 1,
        ensures
            final(self).wf(),
            final(self).doc_count == old(self).doc_count,
            term_list(final(self)@, term@) == term_list(old(self)@, term@).push(p),
            has_term(final(self)@, term@),
            forall|t: Seq<char>|
                t != term@ ==> #[trigger] term_list(final(self)@, t) == term_list(old(self)@, t),
            forall|t: Seq<char>|
                t != term@ ==> #[trigger] has_term(final(self)@, t) == has_term(old(self)@, t),
    {
        let ghost pre = self@;
        let n = self.postings.len();
        let mut i: usize = 0;
        while i < n
            invariant
                i <= n,
                n == self@.len(),
                self@ == pre,
                old(self).wf(),
                pre == old(self)@,
                self.doc_count == old(self).doc_count,
                p.tf >= 1,
                forall|k: int| 0 <= k < i ==> (#[trigger] pre[k].term) != term@,
            decreases n - i,
        {
            if str_eq(self.postings[i].term.as_str(), term) {
                proof {
                    assert(self@[i as int].term == term@);
                }
                let mut entry = self.postings.remove(i);
                entry.list.push(p);
                self.postings.insert(i, entry);
                proof {
                    let post = self@;
                    assert(post =~= pre.update(
                        i as int,
                        (TermPostingsView { term: term@, list: pre[i as int].list.push(p) }),
                    ));
                    assert(forall|k: int|
                        0 <= k < pre.len() && k != i ==> post[k] == (#[trigger] pre[k]));
                    assert(forall|k: int|
                        0 <= k < pre.len() ==> (#[trigger] post[k].term) == pre[k].term);
                    lemma_term_index_of(pre, i as int);
                    lemma_term_index_of(post, i as int);
                    assert(term_list(post, term@) == term_list(pre, term@).push(p));
                    assert forall|t: Seq<char>| t != term@ implies #[trigger] term_list(
                        post,
                        t,
                    ) == term_list(pre, t) && #[trigger] has_term(post, t) == has_term(
                        pre,
                        t,
                    ) by {
                        lemma_lists_agree_off_index(pre, post, i as int, t);
                    }
                    lemma_shape_after_list_push(pre, post, i as int, p);
                    assert forall|a: int| 0 <= a < post.len() implies (#[trigger] post[a].term).len()
                        < 0x1_0000_0000_0000_0000 by {
                        assert(post[a].term == pre[a].term);
                        assert(pre[a].term.len() < 0x1_0000_0000_0000_0000);
                    }
                }
                return ;
            }
            i = i + 1;
        }
        let _term_chars = term.unicode_len();
        let entry = TermPostings { term: term_to_string(term), list: make_singleton(p) };
        self.postings.push(entry);
        proof {
            let post = self@;
            assert(term@.len() < 0x1_0000_0000_0000_0000);
            assert(post =~= pre.push((TermPostingsView { term: term@, list: seq![p] })));
            assert(forall|k: int| 0 <= k < pre.len() ==> post[k] == (#[trigger] pre[k]));
            assert(!has_term(pre, term@));
            assert forall|a: int, b: int| 0 <= a < b < post.len() implies (#[trigger] post[a].term)
                != (#[trigger] post[b].term) by {
                if b < pre.len() {
                    assert(pre[a].term != pre[b].term);
                } else {
                    assert(post[b].term == term@);
                    assert(pre[a].term != term@);
                }
            }
            lemma_term_index_of(post, pre.len() as int);
            assert(term_list(pre, term@) =~= Seq::<Posting>::empty());
            assert(term_list(post, term@) =~= term_list(pre, term@).push(p));
            assert forall|t: Seq<char>| t != term@ implies #[trigger] term_list(post, t)
                == term_list(pre, t) && #[trigger] has_term(post, t) == has_term(pre, t) by {
                lemma_lists_agree_after_push(pre, post, t);
            }
            assert forall|a: int| 0 <= a < post.len() implies (#[trigger] post[a].list).len()
                > 0 by {
                if a < pre.len() {
                    assert(post[a] == pre[a]);
                }
            }
            assert forall|a: int, k: int|
                0 <= a < post.len() && 0 <= k < post[a].list.len() implies (
            #[trigger] post[a].list[k]).tf >= 1 by {
                if a < pre.len() {
                    assert(post[a] == pre[a]);
                }
            }
            assert forall|a: int| 0 <= a < post.len() implies (#[trigger] post[a].term).len()
                < 0x1_0000_0000_0000_0000 by {
                if a < pre.len() {
                    assert(post[a] == pre[a]);
                    assert(pre[a].term.len() < 0x1_0000_0000_0000_0000);
                } else {
                    assert(post[a].term == term@);
                }
            }
        }
    }

    /// Adds one document: counts each term's occurrences in `terms` and, for
    /// each distinct term, appends a single posting `(doc_id, tf)` to that
    /// term's list.  The document counter rises by exactly one.
    pub fn add_doc(&mut self, doc_id: u64, terms: &Vec<String>)
        requires
            old(self).wf(),
            old(self).doc_count < 0xFFFF_FFFF_FFFF_FFFFu64,
            terms@.len() < 0x1_0000_0000,
        ensures
            final(self).wf(),
            final(self).doc_count == old(self).doc_count + 1,
            forall|t: Seq<char>|
                #[trigger] term_list(final(self)@, t) == mem_list_after(
                    old(self)@,
                    doc_id,
                    terms@.map_values(|s: String| s@),
                    t,
                ),
            forall|t: Seq<char>|
                #[trigger] has_term(final(self)@, t) == mem_has_after(
                    old(self)@,
                    terms@.map_values(|s: String| s@),
                    t,
                ),
    {
        let ghost tv = terms@.map_values(|s: String| s@);
        let ghost pre = self@;
        let n = terms.len();
        let mut i: usize = 0;
        proof {
            assert(tv.take(0) =~= Seq::<Seq<char>>::empty());
        }
        while i < n
            invariant
                i <= n,
                n == terms@.len(),
                n < 0x1_0000_0000,
                tv == terms@.map_values(|s: String| s@),
                old(self).wf(),
                pre == old(self)@,
                self.wf(),
                self.doc_count == old(self).doc_count,
                forall|t: Seq<char>|
                    #[trigger] term_list(self@, t) == (if occ_count(tv.take(i as int), t) > 0 {
                        term_list(pre, t).push(
                            (Posting { doc_id, tf: occ_count(tv, t) as u32 }),
                        )
                    } else {
                        term_list(pre, t)
                    }),
                forall|t: Seq<char>|
                    #[trigger] has_term(self@, t) == (has_term(pre, t) || occ_count(
                        tv.take(i as int),
                        t,
                    ) > 0),
            decreases n - i,
        {
            let ghost t = tv[i as int];
            let ghost s0 = self@;
            proof {
                assert(tv[i as int] == terms@[i as int]@);
            }
            // only the first occurrence of a term files its posting
            let mut seen = false;
            let mut j: usize = 0;
            while j < i
                invariant
                    j <= i,
                    i < n,
                    n == terms@.len(),
                    tv == terms@.map_values(|s: String| s@),
                    t == tv[i as int],
                    t == terms@[i as int]@,
                    seen == (exists|k: int| 0 <= k < j && tv[k] == t),
                decreases i - j,
            {
                proof {
                    assert(tv[j as int] == terms@[j as int]@);
                }
                if str_eq(terms[j].as_str(), terms[i].as_str()) {
                    seen = true;
                    proof {
                        assert(tv[j as int] == t);
                    }
                } else {
                    proof {
                        assert(tv[j as int] != t);
                        assert forall|k: int| 0 <= k < j + 1 && tv[k] == t implies exists|k2: int|
                            0 <= k2 < j && tv[k2] == t by {
                            assert(k != j);
                        }
                    }
                }
                j = j + 1;
            }
            if !seen {
                // full occurrence count of this term over the whole sequence
                let mut c: u32 = 0;
                let mut k: usize = 0;
                proof {
                    assert(tv.take(0) =~= Seq::<Seq<char>>::empty());
                }
                while k < n
                    invariant
                        k <= n,
                        n == terms@.len(),
                        n < 0x1_0000_0000,
                        tv == terms@.map_values(|s: String| s@),
                        t == tv[i as int],
                        t == terms@[i as int]@,
                        i < n,
                        c == occ_count(tv.take(k as int), t),
                        c <= k,
                    decreases n - k,
                {
                    proof {
                        assert(tv[k as int] == terms@[k as int]@);
                        assert(tv.take(k + 1) =~= tv.take(k as int).push(tv[k as int]));
                        lemma_occ_count_push(tv.take(k as int), tv[k as int], t);
                    }
                    if str_eq(terms[k].as_str(), terms[i].as_str()) {
                        c = c + 1;
                    }
                    k = k + 1;
                }
                proof {
                    assert(tv.take(n as int) =~= tv);
                    assert(c == occ_count(tv, t));
                    assert(tv[i as int] == t);
                    lemma_occ_count_zero(tv, t);
                    assert(occ_count(tv, t) >= 1);
                }
                self.push_posting(terms[i].as_str(), Posting { doc_id, tf: c });
            }
            proof {
                assert(tv.take(i + 1) =~= tv.take(i as int).push(tv[i as int]));
                // the term at position i has already occurred before i
                // exactly when the scan saw it
                if seen {
                    let kw = choose|k: int| 0 <= k < i && tv[k] == t;
                    assert(tv.take(i as int)[kw] == t);
                    lemma_occ_count_zero(tv.take(i as int), t);
                    assert(occ_count(tv.take(i as int), t) > 0);
                } else {
                    assert forall|k: int| 0 <= k < i implies #[trigger] tv.take(i as int)[k]
                        != t by {
                        assert(tv.take(i as int)[k] == tv[k]);
                    }
                    lemma_occ_count_zero(tv.take(i as int), t);
                    assert(occ_count(tv.take(i as int), t) == 0);
                }
                assert forall|t2: Seq<char>| true implies #[trigger] term_list(self@, t2) == (
                if occ_count(tv.take(i + 1), t2) > 0 {
                    term_list(pre, t2).push((Posting { doc_id, tf: occ_count(tv, t2) as u32 }))
                } else {
                    term_list(pre, t2)
                }) by {
                    lemma_occ_count_push(tv.take(i as int), tv[i as int], t2);
                    if t2 == t {
                        if seen {
                            assert(self@ == s0);
                            assert(occ_count(tv.take(i as int), t2) > 0);
                        } else {
                            assert(occ_count(tv.take(i as int), t2) == 0);
                            assert(term_list(s0, t2) == term_list(pre, t2));
                            lemma_occ_count_le_len(tv, t2);
                            assert(occ_count(tv, t2) as u32 == occ_count(tv, t2));
                            assert(term_list(self@, t2) == term_list(s0, t2).push(
                                (Posting { doc_id, tf: occ_count(tv, t2) as u32 }),
                            ));
                        }
                    } else {
                        if !seen {
                            assert(term_list(self@, t2) == term_list(s0, t2));
                        }
                    }
                }
                assert forall|t2: Seq<char>| true implies #[trigger] has_term(self@, t2) == (
                has_term(pre, t2) || occ_count(tv.take(i + 1), t2) > 0) by {
                    lemma_occ_count_push(tv.take(i as int), tv[i as int], t2);
                    if t2 == t {
                        if seen {
                            assert(self@ == s0);
                            assert(occ_count(tv.take(i as int), t2) > 0);
                        } else {
                            assert(has_term(self@, t2));
                        }
                    } else {
                        if !seen {
                            assert(has_term(self@, t2) == has_term(s0, t2));
                        }
                    }
                }
            }
            i = i + 1;
        }
        proof {
            assert(tv.take(n as int) =~= tv);
        }
        self.doc_count = self.doc_count + 1;
    }
}


/// Relies on `str::to_owned` via vstd's specification: copies the characters.
fn term_to_string(s: &str) -> (r: String)
    ensures
        r@ == s@,
{
    s.to_owned()
}

/// A one-element vector.
fn make_singleton(p: Posting) -> (r: Vec<Posting>)
    ensures
        r@ == seq![p],
{
    let mut v: Vec<Posting> = Vec::new();
    v.push(p);
    proof {
        assert(v@ =~= seq![p]);
    }
    v
}

/// If two entry sequences agree everywhere except that position `i` changed
/// only its list (same term), then lookup of any other term is unchanged.
proof fn lemma_lists_agree_off_index(
    pre: Seq<TermPostingsView>,
    post: Seq<TermPostingsView>,
    i: int,
    t: Seq<char>,
)
    requires
        distinct_terms(pre),
        0 <= i < pre.len(),
        post.len() == pre.len(),
        forall|k: int| 0 <= k < pre.len() && k != i ==> post[k] == pre[k],
        post[i].term == pre[i].term,
        t != pre[i].term,
    ensures
        has_term(post, t) == has_term(pre, t),
        term_list(post, t) == term_list(pre, t),
{
    assert(forall|k: int| 0 <= k < pre.len() ==> (#[trigger] post[k].term) == pre[k].term);
    if has_term(pre, t) {
        let k = term_index(pre, t);
        assert(post[k].term == t);
        assert(has_term(post, t));
    }
    if has_term(post, t) {
        let k = term_index(post, t);
        assert(pre[k].term == t);
        assert(has_term(pre, t));
    }
    if has_term(pre, t) && has_term(post, t) {
        let kp = term_index(pre, t);
        let kq = term_index(post, t);
        assert(pre[kp].term == t && pre[kq].term == t);
        if kp < kq {
            assert(pre[kp].term != pre[kq].term);
        } else if kq < kp {
            assert(pre[kq].term != pre[kp].term);
        }
        assert(kp == kq);
        assert(kp != i);
        assert(post[kq] == pre[kq]);
    }
}

/// Lookup of a term other than the pushed one is unchanged by the push.
proof fn lemma_lists_agree_after_push(
    pre: Seq<TermPostingsView>,
    post: Seq<TermPostingsView>,
    t: Seq<char>,
)
    requires
        distinct_terms(pre),
        post.len() == pre.len() + 1,
        forall|k: int| 0 <= k < pre.len() ==> post[k] == pre[k],
        t != post[pre.len() as int].term,
    ensures
        has_term(post, t) == has_term(pre, t),
        term_list(post, t) == term_list(pre, t),
{
    if has_term(pre, t) {
        let k = term_index(pre, t);
        assert(post[k].term == t);
        assert(has_term(post, t));
    }
    if has_term(post, t) {
        let k = term_index(post, t);
        assert(k < pre.len());
        assert(pre[k].term == t);
        assert(has_term(pre, t));
    }
    if has_term(pre, t) && has_term(post, t) {
        let kp = term_index(pre, t);
        let kq = term_index(post, t);
        assert(pre[kp].term == t && pre[kq].term == t);
        if kp < kq {
            assert(pre[kp].term != pre[kq].term);
        } else if kq < kp {
            assert(pre[kq].term != pre[kp].term);
        }
        assert(kp == kq);
        assert(post[kq].list == pre[kq].list);
    }
}

} // verus!
