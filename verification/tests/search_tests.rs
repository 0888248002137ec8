use indexer::index::{MainIndex, SegmentSource};
use indexer::search::SearchOutcome;
use indexer::stamp::Timestamp;

fn now(secs: u64) -> Timestamp {
    Timestamp { secs, nanos: 0 }
}

fn toks(words: &[&str]) -> Vec<String> {
    words.iter().map(|w| w.to_string()).collect()
}

/// Scores an outcome the way the front-end does: per document, the sum of
/// `tf × |ln(N / df)|` over its hits; zero scores dropped; descending.
fn scored(outcome: &SearchOutcome) -> Vec<(String, f64)> {
    let n = outcome.total_docs as f64;
    let mut results: Vec<(String, f64)> = Vec::new();
    for m in &outcome.matches {
        let mut score = 0.0_f64;
        for h in &m.hits {
            let df = outcome.token_dfs[h.token] as f64;
            let idf = (n / df).ln().abs();
            score += h.tf as f64 * idf;
        }
        if score != 0.0 {
            results.push((m.path.clone(), score));
        }
    }
    results.sort_by(|a, b| b.1.partial_cmp(&a.1).unwrap_or(std::cmp::Ordering::Equal));
    results
}

#[test]
fn empty_index_returns_an_empty_list() {
    // no error, just nothing
    let idx = MainIndex::new(None, &Vec::new(), 100);
    let outcome = idx.search(&toks(&["anything"]));
    assert_eq!(outcome.total_docs, 0);
    assert!(outcome.matches.is_empty());
    assert!(scored(&outcome).is_empty());
}

#[test]
fn absent_tokens_return_an_empty_list() {
    // every token misses every dictionary
    let mut idx = MainIndex::new(None, &Vec::new(), 100);
    idx.add_document("a", &toks(&["alpha"]), now(1));
    idx.commit();
    let outcome = idx.search(&toks(&["delta", "epsilon"]));
    assert_eq!(outcome.token_dfs, vec![0, 0]);
    assert!(outcome.matches.is_empty());
}

#[test]
fn single_document_corpus_scores_zero_and_is_filtered() {
    // N == 1 and df == 1 give idf = |ln(1)| = 0; the score is an
    // exact zero — finite, not NaN — and the zero filter drops the match
    let mut idx = MainIndex::new(None, &Vec::new(), 100);
    idx.add_document("only", &toks(&["word"]), now(1));
    idx.commit();
    let outcome = idx.search(&toks(&["word"]));
    assert_eq!(outcome.total_docs, 1);
    assert_eq!(outcome.token_dfs, vec![1]);
    assert_eq!(outcome.matches.len(), 1);
    assert_eq!(outcome.matches[0].hits.len(), 1);
    assert_eq!(outcome.matches[0].hits[0].tf, 1);
    let results = scored(&outcome);
    assert!(results.is_empty());
}

#[test]
fn two_documents_with_disjoint_vocabularies() {
    // querying alpha finds only doc A with score 2·|ln(2/1)|
    let mut idx = MainIndex::new(None, &Vec::new(), 100);
    idx.add_document("doc_a", &toks(&["alpha", "beta", "alpha"]), now(1));
    idx.add_document("doc_b", &toks(&["gamma"]), now(2));
    idx.commit();

    let outcome = idx.search(&toks(&["alpha"]));
    assert_eq!(outcome.total_docs, 2);
    assert_eq!(outcome.token_dfs, vec![1]);
    assert_eq!(outcome.matches.len(), 1);
    assert_eq!(outcome.matches[0].path, "doc_a");
    assert_eq!(outcome.matches[0].hits.len(), 1);
    assert_eq!(outcome.matches[0].hits[0].tf, 2);
    let results = scored(&outcome);
    assert_eq!(results.len(), 1);
    let expected = 2.0_f64 * (2.0_f64 / 1.0_f64).ln().abs();
    assert!((results[0].1 - expected).abs() < 1e-9);

    let empty = idx.search(&toks(&["delta"]));
    assert!(empty.matches.is_empty());
}

#[test]
fn reindexing_a_modified_document_keeps_both_vocabularies() {
    // the old posting lives on in the old segment
    let mut idx = MainIndex::new(None, &Vec::new(), 100);
    idx.add_document("a", &toks(&["alpha"]), now(1));
    idx.commit();
    idx.add_document("a", &toks(&["beta"]), now(2));
    idx.commit();
    assert_eq!(idx.doc_store.total_docs(), 1);

    let alpha = idx.search(&toks(&["alpha"]));
    assert_eq!(alpha.matches.len(), 1);
    assert_eq!(alpha.matches[0].path, "a");

    let beta = idx.search(&toks(&["beta"]));
    assert_eq!(beta.matches.len(), 1);
    assert_eq!(beta.matches[0].path, "a");
}

#[test]
fn stale_documents_are_skipped_without_new_segments() {
    // a second ingest run without modification changes nothing
    let mut idx = MainIndex::new(None, &Vec::new(), 100);
    let t0 = now(100);
    idx.add_document("a", &toks(&["alpha"]), t0);
    idx.commit();
    let segments_before = idx.active_segments.clone();
    let stamp_before = idx.doc_store.docs[0].indexed_at;

    // the driver's staleness check: modified at t0, indexed at t0
    let id = idx.doc_store.get_id("a");
    let modified_at = now(100);
    let expired =
        indexer::ingest::doc_index_is_expired(id, &idx.doc_store, modified_at);
    assert!(!expired);
    // not expired: the driver skips the document entirely
    idx.commit();
    assert_eq!(idx.doc_store.total_docs(), 1);
    assert_eq!(idx.active_segments, segments_before);
    assert_eq!(idx.doc_store.docs[0].indexed_at, stamp_before);

    // once the file is modified later, the entry reads as expired
    let expired_now =
        indexer::ingest::doc_index_is_expired(id, &idx.doc_store, now(200));
    assert!(expired_now);
}

#[test]
fn ingest_order_does_not_change_search_results() {
    // two ingest orders, same corpus, same scored results
    let vocab = [
        "alpha", "beta", "gamma", "delta", "epsilon", "zeta", "eta", "theta",
    ];
    let mut docs: Vec<(String, Vec<String>)> = Vec::new();
    for i in 0..200 {
        let path = format!("doc{i:03}");
        let tokens = toks(&[vocab[i % vocab.len()], vocab[(i * 3 + 1) % vocab.len()]]);
        docs.push((path, tokens));
    }

    let mut forward = MainIndex::new(None, &Vec::new(), 7);
    for (i, (path, tokens)) in docs.iter().enumerate() {
        forward.add_document(path, tokens, now(i as u64));
    }
    forward.commit();

    let mut backward = MainIndex::new(None, &Vec::new(), 7);
    for (i, (path, tokens)) in docs.iter().enumerate().rev() {
        backward.add_document(path, tokens, now(i as u64));
    }
    backward.commit();

    let q = toks(&["alpha", "theta"]);
    let mut a = scored(&forward.search(&q));
    let mut b = scored(&backward.search(&q));
    assert_eq!(a.len(), b.len());
    a.sort_by(|x, y| x.0.cmp(&y.0));
    b.sort_by(|x, y| x.0.cmp(&y.0));
    for ((pa, sa), (pb, sb)) in a.iter().zip(b.iter()) {
        assert_eq!(pa, pb);
        assert!((sa - sb).abs() < 1e-9);
    }
}

#[test]
fn duplicate_query_tokens_double_the_global_frequency() {
    let mut idx = MainIndex::new(None, &Vec::new(), 100);
    idx.add_document("a", &toks(&["alpha"]), now(1));
    idx.add_document("b", &toks(&["alpha", "beta"]), now(2));
    idx.commit();
    let outcome = idx.search(&toks(&["alpha", "alpha"]));
    // each occurrence counts the summed df once per occurrence
    assert_eq!(outcome.token_dfs, vec![4, 4]);
    // and the postings are revisited per occurrence and per cache entry
    assert_eq!(outcome.matches.len(), 2);
    assert_eq!(outcome.matches[0].hits.len(), 4);
}

#[test]
fn reopened_index_search_smoke() {
    // ten documents, threshold three: four segments, all searchable
    let mut idx = MainIndex::new(None, &Vec::new(), 3);
    let mut sources: Vec<SegmentSource> = Vec::new();
    let words = [
        "w0", "w1", "w2", "w3", "w4", "w5", "w6", "w7", "w8", "w9",
    ];
    for (i, w) in words.iter().enumerate() {
        let path = format!("d{i}");
        if let Some(files) = idx.add_document(&path, &toks(&[w]), now(i as u64)) {
            sources.push(SegmentSource {
                seg_id: files.seg_id,
                dict_bytes: files.dict_bytes,
                postings_bytes: files.postings_bytes,
            });
        }
    }
    let commit = idx.commit();
    if let Some(files) = commit.new_segment {
        sources.push(SegmentSource {
            seg_id: files.seg_id,
            dict_bytes: files.dict_bytes,
            postings_bytes: files.postings_bytes,
        });
    }
    assert_eq!(idx.active_segments.len(), 4);
    let reopened = MainIndex::new(Some(&commit.docstore_bytes), &sources, 3);
    assert_eq!(reopened.active_segments.len(), 4);
    for (i, w) in words.iter().enumerate() {
        let outcome = reopened.search(&toks(&[w]));
        assert_eq!(outcome.matches.len(), 1);
        assert_eq!(outcome.matches[0].path, format!("d{i}"));
    }
}
