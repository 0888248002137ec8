//! The Document Store: a bidirectional registry of document paths and
//! stable numeric ids, with per-document indexed-at timestamps.
//!
//! Ids are dense: the document with id `i` sits at position `i` of `docs`,
//! so the `path -> id` and `id -> info` directions are two readings of one
//! well-formed vector (paths distinct).  Ids are never reused, and the next
//! id to issue is always the current length.
//!
//! The store persists as a single blob: the document count, then each
//! document's path and timestamp, in id order.  Encoding is deterministic,
//! and decoding an encoded store is proved to give the store back.

use vstd::prelude::*;
use crate::codec::dec_str;
use crate::codec::dec_u32;
use crate::codec::dec_u64;
use crate::codec::enc_str;
use crate::codec::lemma_dec_str_of_enc;
use crate::codec::lemma_dec_u32_of_enc;
use crate::codec::lemma_dec_u64_of_enc;
use crate::codec::lemma_enc_chars_len;
use crate::codec::read_str;
use crate::codec::read_u32;
use crate::codec::read_u64;
use crate::codec::write_str;
use crate::codec::write_u32;
use crate::codec::write_u64;
use crate::order::str_eq;
use crate::stamp::NANOS_PER_SEC;
use crate::stamp::Timestamp;
use vstd::bytes::spec_u32_to_le_bytes;
use vstd::bytes::spec_u64_to_le_bytes;

verus! {

/// What the store records about one document: its path and the moment it
/// was last indexed (the Unix epoch if never).
pub struct DocInfo {
    pub path: String,
    pub indexed_at: Timestamp,
}

/// The mathematical value of a `DocInfo`.
pub struct DocInfoView {
    pub path: Seq<char>,
    pub indexed_at: Timestamp,
}

impl View for DocInfo {
    type V = DocInfoView;

    open spec fn view(&self) -> DocInfoView {
        DocInfoView { path: self.path@, indexed_at: self.indexed_at }
    }
}

impl DocInfo {
    /// A fresh entry for `path`: never indexed, so stamped with the epoch.
    pub fn new(path: String) -> (r: DocInfo)
        ensures
            r@.path == path@,
            r@.indexed_at == (Timestamp { secs: 0u64, nanos: 0u32 }),
    {
        DocInfo { path, indexed_at: Timestamp::epoch() }
    }
}

impl Default for DocInfo {
    /// The default entry: an empty path, never indexed.
    fn default() -> (r: Self)
        ensures
            r@.path == Seq::<char>::empty(),
            r@.indexed_at == (Timestamp { secs: 0u64, nanos: 0u32 }),
    {
        DocInfo { path: String::new(), indexed_at: Timestamp::epoch() }
    }
}

/// Maps document paths to stable ids and ids to document metadata.
pub struct DocumentStore {
    pub docs: Vec<DocInfo>,
}

/// Well-formedness of a store value: paths are distinct (the two directions
/// are inverse bijections), every timestamp is well formed, and the sizes
/// fit the 64-bit on-disk fields.
pub open spec fn store_view_wf(ds: Seq<DocInfoView>) -> bool {
    &&& forall|i: int, j: int|
        0 <= i < j < ds.len() ==> (#[trigger] ds[i].path) != (#[trigger] ds[j].path)
    &&& forall|i: int| 0 <= i < ds.len() ==> (#[trigger] ds[i].indexed_at).wf()
    &&& forall|i: int|
        0 <= i < ds.len() ==> (#[trigger] ds[i].path).len() < 0x1_0000_0000_0000_0000
    &&& ds.len() < 0x1_0000_0000_0000_0000
}

impl View for DocumentStore {
    type V = Seq<DocInfoView>;

    open spec fn view(&self) -> Seq<DocInfoView> {
        self.docs@.map_values(|d: DocInfo| d@)
    }
}

impl DocumentStore {
    pub open spec fn wf(self) -> bool {
        store_view_wf(self@)
    }

    /// True when some document has this path.
    pub open spec fn contains_path(self, p: Seq<char>) -> bool {
        exists|i: int| 0 <= i < self@.len() && self@[i].path == p
    }

    /// The id of the document with path `p`, assuming one exists.
    pub open spec fn spec_id_of(self, p: Seq<char>) -> int {
        choose|i: int| 0 <= i < self@.len() && self@[i].path == p
    }

    /// The id `get_id` returns for path `p`: the existing one, or the next
    /// one to issue.
    pub open spec fn spec_assigned_id(self, p: Seq<char>) -> int {
        if self.contains_path(p) {
            self.spec_id_of(p)
        } else {
            self@.len() as int
        }
    }

    /// The path of the document with id `id`, if that id was ever issued.
    pub open spec fn spec_path_of(self, id: u64) -> Option<Seq<char>> {
        if id < self@.len() {
            Some(self@[id as int].path)
        } else {
            None
        }
    }

    /// An empty store: no documents, next id zero.
    pub fn new() -> (r: DocumentStore)
        ensures
            r@ == Seq::<DocInfoView>::empty(),
            r.wf(),
    {
        let r = DocumentStore { docs: Vec::new() };
        proof {
            assert(r@ =~= Seq::<DocInfoView>::empty());
        }
        r
    }

    /// The number of documents the store knows.
    pub fn total_docs(&self) -> (r: u64)
        requires
            self.wf(),
        ensures
            r == self@.len(),
    {
        self.docs.len() as u64
    }

    /// Returns the id of `path`, issuing the next id if the path is new.
    ///
    /// Known paths keep their id and the store is untouched; a new path is
    /// appended with an epoch timestamp, so the id it gets is the previous
    /// document count.  Either way, looking the returned id up afterwards
    /// yields `path` again.
    pub fn get_id(&mut self, path: &str) -> (r: u64)
        requires
            old(self).wf(),
            old(self)@.len() < 0xFFFF_FFFF_FFFF_FFFFu64,
        ensures
            final(self).wf(),
            r < final(self)@.len(),
            final(self)@[r as int].path == path@,
            final(self).spec_path_of(r) == Some(path@),
            old(self).contains_path(path@) ==> final(self)@ == old(self)@ && r
                == old(self).spec_id_of(path@),
            !old(self).contains_path(path@) ==> final(self)@ == old(self)@.push(
                (DocInfoView { path: path@, indexed_at: Timestamp { secs: 0u64, nanos: 0u32 } }),
            ) && r == old(self)@.len(),
            final(self).contains_path(path@),
            r == old(self).spec_assigned_id(path@),
    {
        let n = self.docs.len();
        let mut i: usize = 0;
        while i < n
            invariant
                i <= n,
                n == self@.len(),
                self@ == old(self)@,
                old(self).wf(),
                forall|k: int| 0 <= k < i ==> (#[trigger] self@[k].path) != path@,
            decreases n - i,
        {
            if str_eq(self.docs[i].path.as_str(), path) {
                proof {
                    assert(self@[i as int].path == path@);
                    assert(old(self).contains_path(path@));
                    let c = old(self).spec_id_of(path@);
                    if c < i as int {
                        assert(self@[c].path != self@[i as int].path);
                    } else if c > i as int {
                        assert(self@[i as int].path != self@[c].path);
                    }
                }
                return i as u64;
            }
            i = i + 1;
        }
        // unused at run time; it witnesses that the path length fits usize,
        // which well-formedness of the stored entry records
        let _path_len = path.unicode_len();
        let id = n as u64;
        let info = DocInfo::new(path_to_string(path));
        self.docs.push(info);
        proof {
            assert(self@ =~= old(self)@.push(
                (DocInfoView {
                    path: path@,
                    indexed_at: Timestamp { secs: 0u64, nanos: 0u32 },
                }),
            ));
            assert(!old(self).contains_path(path@));
            assert(final(self)@[id as int].path == path@);
        }
        id
    }

    /// The path of the document with id `id`, or `None` for an id that was
    /// never issued.
    pub fn get_path(&self, id: u64) -> (r: Option<&String>)
        requires
            self.wf(),
        ensures
            match r {
                Some(p) => self.spec_path_of(id) == Some(p@),
                None => self.spec_path_of(id) is None,
            },
    {
        if id < self.docs.len() as u64 {
            Some(&self.docs[id as usize].path)
        } else {
            None
        }
    }

    /// Overwrites the indexed-at timestamp of an existing document.
    /// Calling this with an unknown id is a caller error, excluded here.
    pub fn set_indexed_at(&mut self, doc_id: u64, now: Timestamp)
        requires
            old(self).wf(),
            doc_id < old(self)@.len(),
            now.wf(),
        ensures
            final(self).wf(),
            final(self)@ == old(self)@.update(
                doc_id as int,
                (DocInfoView { path: old(self)@[doc_id as int].path, indexed_at: now }),
            ),
    {
        let idx = doc_id as usize;
        let _path_len = self.docs[idx].path.unicode_len();
        let old_info = self.docs.remove(idx);
        self.docs.insert(idx, DocInfo { path: old_info.path, indexed_at: now });
        proof {
            assert(self@ =~= old(self)@.update(
                doc_id as int,
                (DocInfoView { path: old(self)@[doc_id as int].path, indexed_at: now }),
            ));
        }
    }
}

/// Relies on `str::to_owned` via vstd's specification: copies the characters.
fn path_to_string(s: &str) -> (r: String)
    ensures
        r@ == s@,
{
    s.to_owned()
}

// ---------------------------------------------------------------------------
// Serialisation
// ---------------------------------------------------------------------------

/// One document entry: path, then seconds, then nanoseconds.
pub open spec fn enc_doc_info(d: DocInfoView) -> Seq<u8> {
    enc_str(d.path) + spec_u64_to_le_bytes(d.indexed_at.secs) + spec_u32_to_le_bytes(
        d.indexed_at.nanos,
    )
}

/// Entries one after another, in id order.
pub open spec fn enc_doc_seq(ds: Seq<DocInfoView>) -> Seq<u8>
    decreases ds.len(),
{
    if ds.len() == 0 {
        Seq::<u8>::empty()
    } else {
        enc_doc_info(ds[0]) + enc_doc_seq(ds.drop_first())
    }
}

/// The whole store: the document count, then the entries.
pub open spec fn enc_store(ds: Seq<DocInfoView>) -> Seq<u8> {
    spec_u64_to_le_bytes(ds.len() as u64) + enc_doc_seq(ds)
}

/// Parses one document entry at `pos`.
pub open spec fn dec_doc_info(b: Seq<u8>, pos: int) -> Option<(DocInfoView, int)> {
    match dec_str(b, pos) {
        Some((path, p1)) => match dec_u64(b, p1) {
            Some((secs, p2)) => match dec_u32(b, p2) {
                Some((nanos, p3)) => Some(
                    ((DocInfoView { path, indexed_at: Timestamp { secs, nanos } }), p3),
                ),
                None => None,
            },
            None => None,
        },
        None => None,
    }
}

/// Parses exactly `n` document entries at `pos`.
pub open spec fn dec_doc_seq(b: Seq<u8>, pos: int, n: int) -> Option<(Seq<DocInfoView>, int)>
    decreases n,
{
    if n <= 0 {
        Some((Seq::<DocInfoView>::empty(), pos))
    } else {
        match dec_doc_info(b, pos) {
            Some((d, p1)) => match dec_doc_seq(b, p1, n - 1) {
                Some((ds, p2)) => Some((seq![d] + ds, p2)),
                None => None,
            },
            None => None,
        }
    }
}

/// Which byte strings are accepted as a persisted store: a count, that many
/// entries, nothing after them, and a well-formed result.
pub open spec fn spec_load_store(b: Seq<u8>) -> Option<Seq<DocInfoView>> {
    match dec_u64(b, 0) {
        Some((n, p)) => match dec_doc_seq(b, p, n as int) {
            Some((ds, q)) => if q == b.len() && store_view_wf(ds) {
                Some(ds)
            } else {
                None
            },
            None => None,
        },
        None => None,
    }
}

/// Appending an entry to the store appends its encoding to the blob body.
pub proof fn lemma_enc_doc_seq_push(ds: Seq<DocInfoView>, d: DocInfoView)
    ensures
        enc_doc_seq(ds.push(d)) == enc_doc_seq(ds) + enc_doc_info(d),
    decreases ds.len(),
{
    reveal_with_fuel(enc_doc_seq, 3);
    if ds.len() == 0 {
        assert(ds.push(d)[0] == d);
        assert(ds.push(d).drop_first() =~= Seq::<DocInfoView>::empty());
        assert(enc_doc_seq(ds.push(d)) =~= enc_doc_seq(ds) + enc_doc_info(d));
    } else {
        assert(ds.push(d).drop_first() =~= ds.drop_first().push(d));
        lemma_enc_doc_seq_push(ds.drop_first(), d);
        assert(enc_doc_seq(ds.push(d)) =~= enc_doc_seq(ds) + enc_doc_info(d));
    }
}

/// An encoded entry embedded in a buffer decodes to the entry written.
pub proof fn lemma_dec_doc_info_of_enc(b: Seq<u8>, pos: int, d: DocInfoView)
    requires
        0 <= pos,
        d.path.len() < 0x1_0000_0000_0000_0000,
        pos + enc_doc_info(d).len() <= b.len(),
        b.subrange(pos, pos + enc_doc_info(d).len()) == enc_doc_info(d),
    ensures
        dec_doc_info(b, pos) == Some((d, pos + enc_doc_info(d).len())),
{
    vstd::bytes::lemma_auto_spec_u64_to_from_le_bytes();
    vstd::bytes::lemma_auto_spec_u32_to_from_le_bytes();
    assert(spec_u64_to_le_bytes(d.indexed_at.secs).len() == 8);
    assert(spec_u32_to_le_bytes(d.indexed_at.nanos).len() == 4);
    assert(spec_u64_to_le_bytes(d.path.len() as u64).len() == 8);
    lemma_enc_chars_len(d.path);
    let sl = 8 + 4 * d.path.len() as int;
    let e = enc_doc_info(d);
    assert(e.len() == sl + 12);
    assert(b.subrange(pos, pos + sl) =~= e.subrange(0, sl));
    assert(e.subrange(0, sl) =~= enc_str(d.path));
    lemma_dec_str_of_enc(b, pos, d.path);
    assert(b.subrange(pos + sl, pos + sl + 8) =~= e.subrange(sl, sl + 8));
    assert(e.subrange(sl, sl + 8) =~= spec_u64_to_le_bytes(d.indexed_at.secs));
    lemma_dec_u64_of_enc(b, pos + sl, d.indexed_at.secs);
    assert(b.subrange(pos + sl + 8, pos + sl + 12) =~= e.subrange(sl + 8, sl + 12));
    assert(e.subrange(sl + 8, sl + 12) =~= spec_u32_to_le_bytes(d.indexed_at.nanos));
    lemma_dec_u32_of_enc(b, pos + sl + 8, d.indexed_at.nanos);
}

/// An encoded run of entries embedded in a buffer decodes to the entries
/// written.
pub proof fn lemma_dec_doc_seq_of_enc(b: Seq<u8>, pos: int, ds: Seq<DocInfoView>)
    requires
        0 <= pos,
        forall|i: int|
            0 <= i < ds.len() ==> (#[trigger] ds[i].path).len() < 0x1_0000_0000_0000_0000,
        pos + enc_doc_seq(ds).len() <= b.len(),
        b.subrange(pos, pos + enc_doc_seq(ds).len()) == enc_doc_seq(ds),
    ensures
        dec_doc_seq(b, pos, ds.len() as int) == Some((ds, pos + enc_doc_seq(ds).len())),
    decreases ds.len(),
{
    if ds.len() == 0 {
        assert(ds =~= Seq::<DocInfoView>::empty());
    } else {
        let d = ds[0];
        let rest = ds.drop_first();
        let dl = enc_doc_info(d).len() as int;
        let rl = enc_doc_seq(rest).len() as int;
        assert(enc_doc_seq(ds) == enc_doc_info(d) + enc_doc_seq(rest));
        assert(b.subrange(pos, pos + dl) =~= enc_doc_seq(ds).subrange(0, dl));
        assert(enc_doc_seq(ds).subrange(0, dl) =~= enc_doc_info(d));
        lemma_dec_doc_info_of_enc(b, pos, d);
        assert(b.subrange(pos + dl, pos + dl + rl) =~= enc_doc_seq(ds).subrange(dl, dl + rl));
        assert(enc_doc_seq(ds).subrange(dl, dl + rl) =~= enc_doc_seq(rest));
        lemma_dec_doc_seq_of_enc(b, pos + dl, rest);
        assert(seq![d] + rest =~= ds);
    }
}

/// Round trip: loading a persisted well-formed store yields that store.
pub proof fn lemma_load_of_persist(ds: Seq<DocInfoView>)
    requires
        store_view_wf(ds),
    ensures
        spec_load_store(enc_store(ds)) == Some(ds),
{
    let b = enc_store(ds);
    vstd::bytes::lemma_auto_spec_u64_to_from_le_bytes();
    assert(spec_u64_to_le_bytes(ds.len() as u64).len() == 8);
    assert(b.subrange(0, 8) =~= spec_u64_to_le_bytes(ds.len() as u64));
    lemma_dec_u64_of_enc(b, 0, ds.len() as u64);
    assert(b.subrange(8, 8 + enc_doc_seq(ds).len() as int) =~= enc_doc_seq(ds));
    lemma_dec_doc_seq_of_enc(b, 8, ds);
}

impl DocumentStore {
    /// Serialises the store to its single blob.
    pub fn persist(&self) -> (r: Vec<u8>)
        requires
            self.wf(),
        ensures
            r@ == enc_store(self@),
    {
        let mut out: Vec<u8> = Vec::new();
        write_u64(&mut out, self.docs.len() as u64);
        let ghost base = out@;
        let n = self.docs.len();
        let mut i: usize = 0;
        proof {
            assert(self@.subrange(0, 0) =~= Seq::<DocInfoView>::empty());
        }
        while i < n
            invariant
                i <= n,
                n == self@.len(),
                self.wf(),
                base == spec_u64_to_le_bytes(n as u64),
                out@ == base + enc_doc_seq(self@.subrange(0, i as int)),
            decreases n - i,
        {
            write_str(&mut out, self.docs[i].path.as_str());
            write_u64(&mut out, self.docs[i].indexed_at.secs);
            write_u32(&mut out, self.docs[i].indexed_at.nanos);
            proof {
                assert(self@.subrange(0, i + 1) =~= self@.subrange(0, i as int).push(
                    self@[i as int],
                ));
                lemma_enc_doc_seq_push(self@.subrange(0, i as int), self@[i as int]);
            }
            i = i + 1;
        }
        proof {
            assert(self@.subrange(0, n as int) =~= self@);
        }
        out
    }

    /// Parses a persisted store.  Returns `None` — and the caller starts
    /// afresh — when the blob is not exactly a well-formed store.
    pub fn load(bytes: &Vec<u8>) -> (r: Option<DocumentStore>)
        ensures
            match r {
                Some(s) => spec_load_store(bytes@) == Some(s@) && s.wf(),
                None => spec_load_store(bytes@) is None,
            },
    {
        let (n, start) = match read_u64(bytes, 0) {
            Some(x) => x,
            None => {
                return None;
            },
        };
        let mut docs: Vec<DocInfo> = Vec::new();
        let mut cur: usize = start;
        let mut i: u64 = 0;
        while i < n
            invariant
                i <= n,
                dec_u64(bytes@, 0) == Some((n, start as int)),
                docs@.len() == i,
                dec_doc_seq(bytes@, start as int, n as int) == (match dec_doc_seq(
                    bytes@,
                    cur as int,
                    (n - i) as int,
                ) {
                    Some((ds, p)) => Some(
                        (docs@.map_values(|d: DocInfo| d@) + ds, p),
                    ),
                    None => None::<(Seq<DocInfoView>, int)>,
                }),
            decreases n - i,
        {
            let entry = read_doc_info(bytes, cur);
            match entry {
                Some((d, p)) => {
                    proof {
                        let tail = dec_doc_seq(bytes@, p as int, (n - i - 1) as int);
                        if tail is Some {
                            let (ds, q) = tail->Some_0;
                            assert(docs@.map_values(|x: DocInfo| x@) + (seq![d@] + ds)
                                =~= docs@.push(d).map_values(|x: DocInfo| x@) + ds);
                        }
                    }
                    docs.push(d);
                    cur = p;
                },
                None => {
                    proof {
                        assert(dec_doc_seq(bytes@, cur as int, (n - i) as int) is None);
                    }
                    return None;
                },
            }
            i = i + 1;
        }
        proof {
            assert(docs@.map_values(|x: DocInfo| x@) + Seq::<DocInfoView>::empty()
                =~= docs@.map_values(|x: DocInfo| x@));
        }
        if cur != bytes.len() {
            return None;
        }
        let store = DocumentStore { docs };
        if check_store_wf(&store) {
            Some(store)
        } else {
            None
        }
    }
}

/// Parses one document entry at `pos`.
fn read_doc_info(bytes: &Vec<u8>, pos: usize) -> (r: Option<(DocInfo, usize)>)
    ensures
        match r {
            Some((d, p)) => dec_doc_info(bytes@, pos as int) == Some((d@, p as int)),
            None => dec_doc_info(bytes@, pos as int) is None,
        },
{
    let (path, p1) = match read_str(bytes, pos) {
        Some(x) => x,
        None => {
            return None;
        },
    };
    let (secs, p2) = match read_u64(bytes, p1) {
        Some(x) => x,
        None => {
            return None;
        },
    };
    let (nanos, p3) = match read_u32(bytes, p2) {
        Some(x) => x,
        None => {
            return None;
        },
    };
    Some((DocInfo { path, indexed_at: Timestamp { secs, nanos } }, p3))
}

/// Decides well-formedness of a parsed store.
fn check_store_wf(store: &DocumentStore) -> (r: bool)
    ensures
        r == store_view_wf(store@),
{
    let n = store.docs.len();
    let mut i: usize = 0;
    while i < n
        invariant
            i <= n,
            n == store@.len(),
            forall|a: int, b: int|
                0 <= a < b < i ==> (#[trigger] store@[a].path) != (#[trigger] store@[b].path),
            forall|a: int| 0 <= a < i ==> (#[trigger] store@[a].indexed_at).wf(),
            forall|a: int|
                0 <= a < i ==> (#[trigger] store@[a].path).len() < 0x1_0000_0000_0000_0000,
        decreases n - i,
    {
        if store.docs[i].indexed_at.nanos >= NANOS_PER_SEC {
            proof {
                assert(!(store@[i as int].indexed_at).wf());
            }
            return false;
        }
        let _path_len = store.docs[i].path.unicode_len();
        let mut j: usize = 0;
        while j < i
            invariant
                j <= i,
                i < n,
                n == store@.len(),
                forall|a: int| 0 <= a < j ==> (#[trigger] store@[a].path) != store@[i as int].path,
            decreases i - j,
        {
            if str_eq(store.docs[j].path.as_str(), store.docs[i].path.as_str()) {
                proof {
                    assert(store@[j as int].path == store@[i as int].path);
                }
                return false;
            }
            j = j + 1;
        }
        i = i + 1;
    }
    true
}

} // verus!
