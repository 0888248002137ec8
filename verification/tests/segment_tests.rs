use indexer::disk::load_segment;
use indexer::flush::flush_segment;
use indexer::segment::InMemorySegment;

fn toks(words: &[&str]) -> Vec<String> {
    words.iter().map(|w| w.to_string()).collect()
}

#[test]
fn add_doc_counts_term_frequencies_once_per_distinct_term() {
    let mut seg = InMemorySegment::new();
    seg.add_doc(7, &toks(&["b", "a", "b", "b"]));
    assert_eq!(seg.doc_count, 1);
    assert_eq!(seg.postings.len(), 2);
    for entry in &seg.postings {
        let expected_tf = if entry.term == "b" { 3 } else { 1 };
        assert_eq!(entry.list.len(), 1);
        assert_eq!(entry.list[0].doc_id, 7);
        assert_eq!(entry.list[0].tf, expected_tf);
    }
}

#[test]
fn should_flush_at_the_threshold() {
    let mut seg = InMemorySegment::new();
    assert!(!seg.should_flush(2));
    seg.add_doc(0, &toks(&["x"]));
    assert!(!seg.should_flush(2));
    seg.add_doc(1, &toks(&["y"]));
    assert!(seg.should_flush(2));
}

#[test]
fn flush_of_an_empty_segment_produces_nothing() {
    let mut seg = InMemorySegment::new();
    assert!(flush_segment(&mut seg, 1, 10).is_none());
}

#[test]
fn flushed_segment_files_load_back_to_the_same_segment() {
    let mut seg = InMemorySegment::new();
    seg.add_doc(1, &toks(&["beta", "alpha"]));
    seg.add_doc(0, &toks(&["alpha", "alpha"]));
    let result = flush_segment(&mut seg, 5, 2).expect("non-empty segment flushes");
    // the buffer is drained
    assert_eq!(seg.doc_count, 0);
    assert!(seg.postings.is_empty());

    let disk = &result.segment;
    assert_eq!(disk.seg_id, 5);
    // terms come out in ascending order
    assert_eq!(disk.dict.len(), 2);
    assert_eq!(disk.dict[0].term, "alpha");
    assert_eq!(disk.dict[1].term, "beta");
    assert_eq!(disk.dict[0].info.df, 2);
    assert_eq!(disk.dict[1].info.df, 1);

    // the files parse, and each run holds df postings sorted by id
    let loaded = load_segment(
        5,
        &result.files.dict_bytes,
        &result.files.postings_bytes,
        2,
    )
    .expect("flushed files must load");
    assert_eq!(loaded.dict.len(), disk.dict.len());
    for (a, b) in loaded.dict.iter().zip(disk.dict.iter()) {
        assert_eq!(a.term, b.term);
        assert_eq!(a.info, b.info);
    }
    assert_eq!(loaded.postings, disk.postings);
}

#[test]
fn corrupt_segment_files_do_not_load() {
    let mut seg = InMemorySegment::new();
    seg.add_doc(0, &toks(&["alpha"]));
    let result = flush_segment(&mut seg, 1, 1).unwrap();

    // truncated postings file
    let mut short = result.files.postings_bytes.clone();
    short.pop();
    assert!(load_segment(1, &result.files.dict_bytes, &short, 1).is_none());

    // garbled dictionary
    assert!(load_segment(1, &vec![1, 2, 3], &result.files.postings_bytes, 1).is_none());

    // a run that names a document the store does not know
    assert!(load_segment(1, &result.files.dict_bytes, &result.files.postings_bytes, 0).is_none());
}
