use indexer::stamp::Timestamp;
use indexer::store::DocumentStore;

#[test]
fn get_id_issues_dense_ids_and_round_trips_paths() {
    let mut store = DocumentStore::new();
    let a = store.get_id("docs/a.txt");
    let b = store.get_id("docs/b.txt");
    assert_eq!(a, 0);
    assert_eq!(b, 1);
    // looking up the issued id yields the path again
    assert_eq!(store.get_path(a).unwrap().as_str(), "docs/a.txt");
    assert_eq!(store.get_path(b).unwrap().as_str(), "docs/b.txt");
    assert!(store.get_path(2).is_none());
    assert_eq!(store.total_docs(), 2);
}

#[test]
fn get_id_is_idempotent_for_known_paths() {
    let mut store = DocumentStore::new();
    let first = store.get_id("same/path.md");
    let second = store.get_id("same/path.md");
    assert_eq!(first, second);
    assert_eq!(store.total_docs(), 1);
}

#[test]
fn total_docs_counts_distinct_paths() {
    let mut store = DocumentStore::new();
    for p in ["a", "b", "c", "a", "b", "d"] {
        store.get_id(p);
    }
    assert_eq!(store.total_docs(), 4);
}

#[test]
fn set_indexed_at_updates_only_the_timestamp() {
    let mut store = DocumentStore::new();
    let id = store.get_id("x");
    let t = Timestamp { secs: 1234, nanos: 5678 };
    store.set_indexed_at(id, t);
    assert_eq!(store.get_path(id).unwrap().as_str(), "x");
    assert_eq!(store.docs[id as usize].indexed_at, t);
}

#[test]
fn persist_load_persist_is_byte_identical() {
    let mut store = DocumentStore::new();
    store.get_id("alpha/one.txt");
    store.get_id("beta/two.pdf");
    store.set_indexed_at(0, Timestamp { secs: 99, nanos: 7 });
    let first = store.persist();
    let reloaded = DocumentStore::load(&first).expect("persisted store must load");
    // the second persist produces the same bytes
    let second = reloaded.persist();
    assert_eq!(first, second);
    assert_eq!(reloaded.total_docs(), 2);
    assert_eq!(reloaded.get_path(1).unwrap().as_str(), "beta/two.pdf");
}

#[test]
fn load_rejects_malformed_blobs() {
    assert!(DocumentStore::load(&vec![1, 2, 3]).is_none());
    let mut store = DocumentStore::new();
    store.get_id("p");
    let mut bytes = store.persist();
    bytes.pop();
    assert!(DocumentStore::load(&bytes).is_none());
    let mut extra = store.persist();
    extra.push(0);
    assert!(DocumentStore::load(&extra).is_none());
}

#[test]
fn empty_store_round_trips() {
    let store = DocumentStore::new();
    let bytes = store.persist();
    let reloaded = DocumentStore::load(&bytes).unwrap();
    assert_eq!(reloaded.total_docs(), 0);
}
