use std::sync::{Arc, Mutex};

use supertable::manifest::SuperfileUri;
use supertable::reader_cache::in_memory::{InMemoryReaderCache, ReaderCacheError};

/// A reader of a superfile with three rows.
#[derive(Debug)]
struct Reader {
    n_docs: u64,
}

const BYTES: usize = 1234;

fn opened() -> Result<Arc<Reader>, String> {
    Ok(Arc::new(Reader { n_docs: 3 }))
}

fn fresh_uri() -> SuperfileUri {
    SuperfileUri::new_v4()
}

#[test]
fn new_store_is_empty() {
    let store: InMemoryReaderCache<Reader> = InMemoryReaderCache::new();
    assert_eq!(store.n_superfiles(), 0);
    assert_eq!(store.resident_bytes(), 0);
}

#[test]
fn insert_then_reader_round_trips() {
    let mut store = InMemoryReaderCache::new();
    let uri = fresh_uri();
    store.insert(uri, BYTES, opened()).expect("insert should succeed");
    let r = store.reader(&uri).expect("reader should find uri");
    assert_eq!(r.n_docs, 3, "minimal superfile carries 3 docs");
    assert_eq!(store.n_superfiles(), 1);
    assert_eq!(store.resident_bytes(), BYTES);
}

#[test]
fn reader_on_unknown_uri_returns_not_found() {
    let store: InMemoryReaderCache<Reader> = InMemoryReaderCache::new();
    let unknown = fresh_uri();
    match store.reader(&unknown).expect_err("expected error") {
        ReaderCacheError::NotFound { uri } => assert_eq!(uri, unknown),
        other => panic!("expected NotFound, got {:?}", other),
    }
}

#[test]
fn insert_with_invalid_bytes_returns_open_failed() {
    let mut store: InMemoryReaderCache<Reader> = InMemoryReaderCache::new();
    let uri = fresh_uri();
    let err = store
        .insert(uri, 16, Err("no magic number".to_string()))
        .expect_err("expected error");
    assert!(matches!(err, ReaderCacheError::OpenFailed { .. }));
    assert_eq!(err.message(), "failed to open superfile bytes: no magic number");
    assert_eq!(store.n_superfiles(), 0);
    assert_eq!(store.resident_bytes(), 0);
    assert!(store.reader(&uri).is_err());
}

#[test]
fn insert_is_idempotent_on_duplicate_uri() {
    let mut store = InMemoryReaderCache::new();
    let uri = fresh_uri();
    store.insert(uri, BYTES, opened()).expect("first insert");
    let bytes_after_first = store.resident_bytes();
    let r1 = store.reader(&uri).expect("first reader");
    store.insert(uri, BYTES, opened()).expect("idempotent insert");
    let r2 = store.reader(&uri).expect("second reader");
    assert_eq!(store.n_superfiles(), 1, "still one superfile");
    assert_eq!(store.resident_bytes(), bytes_after_first, "byte accounting unchanged");
    assert!(Arc::ptr_eq(&r1, &r2));
}

#[test]
fn resident_bytes_sums_across_superfiles() {
    let mut store = InMemoryReaderCache::new();
    store.insert(fresh_uri(), BYTES, opened()).expect("insert a");
    store.insert(fresh_uri(), BYTES, opened()).expect("insert b");
    assert_eq!(store.n_superfiles(), 2);
    assert_eq!(store.resident_bytes(), BYTES + BYTES);
}

#[test]
fn concurrent_reader_clones_share_arc() {
    let mut store = InMemoryReaderCache::new();
    let uri = fresh_uri();
    store.insert(uri, BYTES, opened()).expect("insert");
    let a = store.reader(&uri).expect("a");
    let b = store.reader(&uri).expect("b");
    assert!(Arc::ptr_eq(&a, &b));
}

fn assert_send_sync<T: Send + Sync>() {}

#[test]
fn store_is_send_and_sync() {
    assert_send_sync::<InMemoryReaderCache<Reader>>();
    assert_send_sync::<Arc<Mutex<InMemoryReaderCache<Reader>>>>();
}

#[test]
fn removed_superfiles_are_gone() {
    let mut store = InMemoryReaderCache::default();
    let (a, b) = (fresh_uri(), fresh_uri());
    store.insert(a, 10, opened()).expect("insert a");
    store.insert(b, 20, opened()).expect("insert b");
    store.remove(&a);
    store.remove(&fresh_uri());
    assert!(!store.contains(&a));
    assert!(store.contains(&b));
    assert_eq!(store.resident_bytes(), 20);
}

#[test]
fn reader_errors_have_texts() {
    let e = ReaderCacheError::NotFound { uri: SuperfileUri(0) };
    assert_eq!(
        e.message(),
        "superfile uri SuperfileUri(00000000-0000-0000-0000-000000000000) not found in cache"
    );
}
