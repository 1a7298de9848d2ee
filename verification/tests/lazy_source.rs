use supertable::error::StorageError;
use supertable::lazy_source::{
    LazyByteSourceError, ReadStep, StorageRangeSource, MAX_SHORT_READ_RETRIES,
};

/// A storage that answers in pieces, from an object that may be shorter than
/// was said.
struct ChunkedStorage {
    blob: Vec<u8>,
    chunk_cap: usize,
    obj_size: usize,
    calls: usize,
}

impl ChunkedStorage {
    fn new(blob: Vec<u8>, chunk_cap: usize, obj_size: usize) -> Self {
        ChunkedStorage { blob, chunk_cap, obj_size, calls: 0 }
    }

    fn get_range(&mut self, start: u64, end: u64) -> Result<Vec<u8>, StorageError> {
        self.calls += 1;
        let start = start as usize;
        let req = end as usize - start;
        let available = self.obj_size.saturating_sub(start);
        let take = req.min(self.chunk_cap).min(available);
        Ok(self.blob[start..start + take].to_vec())
    }

    fn tail(&mut self, n: u64) -> (Vec<u8>, u64) {
        let total = self.obj_size as u64;
        let bytes = self.get_range(total - n, total).expect("tail");
        (bytes, total)
    }
}

/// Read a range: ask for what is missing until all has come.
fn range(
    src: &StorageRangeSource,
    storage: &mut ChunkedStorage,
    start: u64,
    len: u64,
) -> Result<Vec<u8>, LazyByteSourceError> {
    let mut read = src.range(start, len)?;
    loop {
        match read.step() {
            ReadStep::Complete => return Ok(read.finish()),
            ReadStep::Fetch { start, end } => {
                let answer = storage.get_range(start, end);
                read = read.accept(answer)?;
            }
        }
    }
}

fn counting(n: usize) -> Vec<u8> {
    (0u8..=255).cycle().take(n).collect()
}

fn known(size: u64) -> StorageRangeSource {
    StorageRangeSource::with_known_size("seg.sf.parquet".to_string(), size)
}

#[test]
fn range_completes_a_short_read_by_refetching_the_tail() {
    let blob = counting(4096);
    let mut storage = ChunkedStorage::new(blob.clone(), 1000, blob.len());
    let src = known(blob.len() as u64);
    let got = range(&src, &mut storage, 0, blob.len() as u64).expect("range");
    assert_eq!(got.len(), blob.len());
    assert_eq!(got, blob);
    assert!(
        storage.calls >= 5,
        "expected multiple GETs to complete the short read, got {}",
        storage.calls
    );
}

#[test]
fn range_completes_short_read_for_interior_range() {
    let blob = counting(4096);
    let mut storage = ChunkedStorage::new(blob.clone(), 700, blob.len());
    let src = known(blob.len() as u64);
    let (start, len) = (1024u64, 2048u64);
    let got = range(&src, &mut storage, start, len).expect("range");
    assert_eq!(got, &blob[start as usize..(start + len) as usize]);
}

#[test]
fn range_surfaces_short_read_when_object_is_truncated() {
    let mut storage = ChunkedStorage::new(vec![7u8; 2048], 4096, 2048);
    let src = known(4096);
    match range(&src, &mut storage, 0, 4096).expect_err("must reject a permanently short read") {
        LazyByteSourceError::ShortRead { start, requested, got } => {
            assert_eq!(start, 0);
            assert_eq!(requested, 4096);
            assert_eq!(got, 2048);
        }
        other => panic!("expected ShortRead, got {other:?}"),
    }
}

#[test]
fn range_zero_length_is_empty_without_io() {
    let mut storage = ChunkedStorage::new(vec![0u8; 16], 16, 16);
    let got = range(&known(16), &mut storage, 8, 0).expect("zero-length range");
    assert!(got.is_empty());
    assert_eq!(storage.calls, 0);
}

#[test]
fn new_heads_and_caches_size() {
    let src = StorageRangeSource::new("seg.sf.parquet".to_string(), Ok(512)).expect("new heads ok");
    assert_eq!(src.size(), 512);
    assert_eq!(src.uri(), "seg.sf.parquet");
}

#[test]
fn unknown_size_tail_discovers_and_patches_size() {
    let blob = counting(1024);
    let mut storage = ChunkedStorage::new(blob.clone(), 4096, blob.len());
    let mut src = StorageRangeSource::with_unknown_size("seg.sf.parquet".to_string());
    assert_eq!(src.size(), 0);

    let (tail_bytes, total) = storage.tail(64);
    src.note_size(total);
    assert_eq!(total, blob.len() as u64);
    assert_eq!(tail_bytes, &blob[blob.len() - 64..]);
    assert_eq!(src.size(), blob.len() as u64);

    match range(&src, &mut storage, blob.len() as u64, 8)
        .expect_err("past-end range must be OutOfBounds")
    {
        LazyByteSourceError::OutOfBounds { start, len, size } => {
            assert_eq!(start, blob.len() as u64);
            assert_eq!(len, 8);
            assert_eq!(size, blob.len() as u64);
        }
        other => panic!("expected OutOfBounds, got {other:?}"),
    }
}

#[test]
fn range_out_of_bounds_when_size_known() {
    let mut storage = ChunkedStorage::new(vec![0u8; 100], 100, 100);
    let err = range(&known(100), &mut storage, 90, 20).expect_err("90+20 > 100");
    assert!(
        matches!(err, LazyByteSourceError::OutOfBounds { .. }),
        "expected OutOfBounds, got {err:?}"
    );
    assert_eq!(storage.calls, 0);
}

#[test]
fn debug_renders_struct_name_and_uri() {
    let src = StorageRangeSource::with_known_size("seg-debug.sf.parquet".to_string(), 8);
    let dbg = format!("{src:?}");
    assert!(dbg.contains("StorageRangeSource"), "got {dbg}");
    assert!(dbg.contains("seg-debug.sf.parquet"), "got {dbg}");
}

#[test]
fn an_empty_answer_ends_a_read() {
    let mut storage = ChunkedStorage::new(vec![1u8; 8], 8, 0);
    let err = range(&known(8), &mut storage, 0, 8).expect_err("nothing comes");
    assert!(matches!(err, LazyByteSourceError::ShortRead { got: 0, requested: 8, .. }));
    assert_eq!(storage.calls, 1);
}

#[test]
fn short_answers_are_asked_for_again_a_few_times() {
    let mut storage = ChunkedStorage::new(vec![1u8; 8], 1, 8);
    let err = range(&known(8), &mut storage, 0, 8).expect_err("too slow");
    assert!(matches!(err, LazyByteSourceError::ShortRead { got: 5, requested: 8, .. }));
    assert_eq!(storage.calls, MAX_SHORT_READ_RETRIES as usize + 1);
    let mut storage = ChunkedStorage::new(vec![1u8; 8], 2, 8);
    assert_eq!(range(&known(8), &mut storage, 0, 8).expect("in four answers"), vec![1u8; 8]);
}

#[test]
fn storage_faults_end_a_read() {
    let read = known(8).range(0, 8).expect("in bounds");
    let fault = StorageError::NotFound { uri: "seg.sf.parquet".to_string() };
    assert!(matches!(
        read.accept(Err(fault)),
        Err(LazyByteSourceError::Storage(StorageError::NotFound { .. }))
    ));
    let fault = StorageError::NotFound { uri: "seg.sf.parquet".to_string() };
    assert!(StorageRangeSource::new("seg.sf.parquet".to_string(), Err(fault)).is_err());
}

#[test]
fn long_answers_are_cut() {
    let read = known(8).range(2, 3).expect("in bounds");
    let read = read.accept(Ok(vec![1, 2, 3, 4, 5])).expect("accepted");
    assert_eq!(read.step(), ReadStep::Complete);
    assert_eq!(read.finish(), vec![1, 2, 3]);
}
