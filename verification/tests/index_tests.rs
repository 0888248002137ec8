use indexer::flush::SegmentFiles;
use indexer::index::{MainIndex, SegmentSource};
use indexer::stamp::Timestamp;

fn now(secs: u64) -> Timestamp {
    Timestamp { secs, nanos: 0 }
}

fn toks(words: &[&str]) -> Vec<String> {
    words.iter().map(|w| w.to_string()).collect()
}

fn empty_index(max_docs: u64) -> MainIndex {
    MainIndex::new(None, &Vec::new(), max_docs)
}

fn source_of(files: SegmentFiles) -> SegmentSource {
    SegmentSource {
        seg_id: files.seg_id,
        dict_bytes: files.dict_bytes,
        postings_bytes: files.postings_bytes,
    }
}

#[test]
fn open_on_nothing_is_empty() {
    let idx = empty_index(100);
    assert_eq!(idx.doc_store.total_docs(), 0);
    assert_eq!(idx.active_segments.len(), 0);
    assert_eq!(idx.next_segment, 1);
}

#[test]
fn add_document_with_no_terms_is_a_no_op() {
    let mut idx = empty_index(100);
    let r = idx.add_document("a.txt", &Vec::new(), now(1));
    assert!(r.is_none());
    assert_eq!(idx.doc_store.total_docs(), 0);
    assert_eq!(idx.current_segment.doc_count, 0);
}

#[test]
fn add_document_buffers_until_the_threshold() {
    let mut idx = empty_index(3);
    assert!(idx.add_document("a", &toks(&["alpha"]), now(1)).is_none());
    assert!(idx.add_document("b", &toks(&["beta"]), now(2)).is_none());
    assert_eq!(idx.current_segment.doc_count, 2);
    assert_eq!(idx.active_segments.len(), 0);
    // the third document reaches the threshold and spills a segment
    let files = idx.add_document("c", &toks(&["gamma"]), now(3));
    assert!(files.is_some());
    let files = files.unwrap();
    assert_eq!(files.seg_id, 1);
    assert_eq!(idx.active_segments, vec![1]);
    assert_eq!(idx.next_segment, 2);
    assert_eq!(idx.current_segment.doc_count, 0);
}

#[test]
fn flush_boundary_with_threshold_two() {
    // threshold 2, three documents: one segment spills during ingest,
    // the residual document becomes a second segment at commit
    let mut idx = empty_index(2);
    assert!(idx.add_document("a", &toks(&["alpha"]), now(1)).is_none());
    assert!(idx.add_document("b", &toks(&["beta"]), now(2)).is_some());
    assert!(idx.add_document("c", &toks(&["gamma"]), now(3)).is_none());
    assert_eq!(idx.active_segments.len(), 1);
    let commit = idx.commit();
    assert!(commit.new_segment.is_some());
    assert_eq!(idx.active_segments.len(), 2);
    assert_eq!(idx.active_segments, vec![1, 2]);
}

#[test]
fn commit_twice_is_a_no_op_the_second_time() {
    let mut idx = empty_index(100);
    idx.add_document("a", &toks(&["alpha"]), now(1));
    let first = idx.commit();
    assert!(first.new_segment.is_some());
    let segments_after_first = idx.active_segments.clone();
    // an immediate second commit writes no segment and the same store
    let second = idx.commit();
    assert!(second.new_segment.is_none());
    assert_eq!(first.docstore_bytes, second.docstore_bytes);
    assert_eq!(idx.active_segments, segments_after_first);
}

#[test]
fn indexing_the_same_document_twice_keeps_one_id() {
    let mut idx = empty_index(100);
    idx.add_document("a", &toks(&["alpha"]), now(1));
    idx.commit();
    // a second add creates a posting in a new segment, not a new id
    idx.add_document("a", &toks(&["alpha"]), now(2));
    let commit = idx.commit();
    assert!(commit.new_segment.is_some());
    assert_eq!(idx.doc_store.total_docs(), 1);
    assert_eq!(idx.active_segments.len(), 2);
}

#[test]
fn reopening_after_commit_restores_the_state() {
    let mut idx = empty_index(3);
    let mut sources: Vec<SegmentSource> = Vec::new();
    for (i, word) in ["one", "two", "three", "four", "five", "six", "seven"]
        .iter()
        .enumerate()
    {
        let path = format!("doc{i}");
        if let Some(files) = idx.add_document(&path, &toks(&[word]), now(i as u64)) {
            sources.push(source_of(files));
        }
    }
    let commit = idx.commit();
    if let Some(files) = commit.new_segment {
        sources.push(source_of(files));
    }
    let reopened = MainIndex::new(Some(&commit.docstore_bytes), &sources, 3);
    assert_eq!(reopened.active_segments, idx.active_segments);
    assert_eq!(
        reopened.doc_store.total_docs(),
        idx.doc_store.total_docs()
    );
    for id in 0..reopened.doc_store.total_docs() {
        assert_eq!(
            reopened.doc_store.get_path(id).unwrap(),
            idx.doc_store.get_path(id).unwrap()
        );
    }
    // a query against the reopened index returns the same outcome
    let q = toks(&["three"]);
    let a = idx.search(&q);
    let b = reopened.search(&q);
    assert_eq!(a.total_docs, b.total_docs);
    assert_eq!(a.token_dfs, b.token_dfs);
    assert_eq!(a.matches.len(), b.matches.len());
    for (ma, mb) in a.matches.iter().zip(b.matches.iter()) {
        assert_eq!(ma.doc_id, mb.doc_id);
        assert_eq!(ma.path, mb.path);
        assert_eq!(ma.hits, mb.hits);
    }
}

#[test]
fn corrupt_segment_files_are_skipped_at_open() {
    let mut idx = empty_index(100);
    idx.add_document("a", &toks(&["alpha"]), now(1));
    let commit = idx.commit();
    let good = commit.new_segment.unwrap();
    let bad = SegmentSource {
        seg_id: 9,
        dict_bytes: vec![0xde, 0xad],
        postings_bytes: vec![0xbe, 0xef],
    };
    let sources = vec![source_of(good), bad];
    let reopened = MainIndex::new(Some(&commit.docstore_bytes), &sources, 100);
    // only segments whose files parse and validate become active
    assert_eq!(reopened.active_segments, vec![1]);
    // the bad id still pushes the next id forward
    assert_eq!(reopened.next_segment, 10);
}

#[test]
fn malformed_docstore_blob_opens_an_empty_store() {
    let blob = vec![9, 9, 9];
    let idx = MainIndex::new(Some(&blob), &Vec::new(), 100);
    assert_eq!(idx.doc_store.total_docs(), 0);
}
