use std::collections::{HashMap, HashSet};

use supertable::chunks::ByteRange;
use supertable::error::StorageError;
use supertable::manifest::SuperfileUri;
use supertable::reader_cache::disk::{CacheStats, DiskCacheError, DiskCacheStore};
use supertable::reader_cache::fetch::{
    after_hybrid_fetch, assemble_chunks, chunk_step, cold_path, fill_action, fill_chunks,
    hybrid_chunks, lazy_open_fits, plan_lazy_open, prefetch_permits, promotion_step,
    second_try_error, skip_background_fill, sweep_interval, wait_for_release, ChunkStep,
    ColdFetchMode, ColdPath, FillAction, FillEvent, PromotionStep, SharedFetch,
    SubsectionOffsets, WaitPhase, WaitStep,
};
use supertable::reader_cache::policy::{EvictionCandidate, LruPolicy};
use supertable::writer::upload::segment_storage_path;

fn tiny_superfile_bytes() -> Vec<u8> {
    let mut b = b"PAR1".to_vec();
    b.extend_from_slice(&[0u8; 96]);
    b.extend_from_slice(b"PAR1");
    b
}

fn open(bytes: &[u8]) -> Result<(), DiskCacheError> {
    if bytes.starts_with(b"PAR1") {
        Ok(())
    } else {
        Err(DiskCacheError::SuperfileOpenRead("no superfile".to_string()))
    }
}

/// A cache over objects in memory: the store keeps the books, this moves the
/// bytes.
struct Cache {
    store: DiskCacheStore,
    objects: HashMap<u128, Vec<u8>>,
    files: HashSet<u128>,
    pinned: Vec<SuperfileUri>,
    now_us: u64,
}

impl Cache {
    fn with_budget(budget: u64) -> Self {
        Cache {
            store: DiskCacheStore::new(budget),
            objects: HashMap::new(),
            files: HashSet::new(),
            pinned: Vec::new(),
            now_us: 0,
        }
    }

    fn new() -> Self {
        Cache::with_budget(1 << 30)
    }

    fn put(&mut self, uri: SuperfileUri, bytes: Vec<u8>) {
        self.objects.insert(uri.0, bytes);
    }

    fn tick(&mut self) -> u64 {
        self.now_us += 1;
        self.now_us
    }

    fn reserve(&mut self, bytes: u64) -> Result<(), DiskCacheError> {
        let room = self.store.reserve(bytes, &self.pinned);
        for uri in &room.evicted {
            self.files.remove(&uri.0);
        }
        room.outcome
    }

    fn fetch(&mut self, uri: SuperfileUri, mapped: bool) -> Result<(), DiskCacheError> {
        let now = self.tick();
        if self.store.touch(uri, now) {
            return Ok(());
        }
        let bytes = match self.objects.get(&uri.0) {
            Some(b) => b.clone(),
            None => {
                return Err(DiskCacheError::Storage(StorageError::NotFound {
                    uri: format!("{}", uri.0),
                }))
            }
        };
        let size = bytes.len() as u64;
        self.reserve(size)?;
        let opened = open(&bytes);
        if opened.is_ok() && mapped {
            self.files.insert(uri.0);
        }
        self.store.finish_cold_fetch(uri, size, mapped, now, opened)
    }

    fn reader_synchronous(&mut self, uri: SuperfileUri) -> Result<(), DiskCacheError> {
        self.fetch(uri, true)
    }

    fn reader_hybrid(&mut self, uri: SuperfileUri) -> Result<(), DiskCacheError> {
        self.fetch(uri, false)
    }

    fn promote(&mut self, uri: SuperfileUri) -> bool {
        let size = self.objects[&uri.0].len() as u64;
        let now = self.tick();
        let held = self.store.promote(uri, size, now);
        if held {
            self.files.insert(uri.0);
        }
        held
    }

    fn insert_warm(&mut self, uri: SuperfileUri, bytes: &[u8]) -> Result<(), DiskCacheError> {
        if self.store.contains(uri) {
            return Ok(());
        }
        let size = bytes.len() as u64;
        self.reserve(size)?;
        let now = self.tick();
        if self.store.finish_warm_insert(uri, size, now, open(bytes))? {
            self.files.insert(uri.0);
        }
        Ok(())
    }
}

#[test]
fn wait_for_release_rechecks_reader_after_grace_sleep() {
    // nobody but the cache seems to hold the reader
    let step = wait_for_release(WaitPhase::Poll, 1, 1, 0);
    assert_eq!(step, WaitStep::Sleep(WaitPhase::Recheck));
    // a caller took it in the meantime: the wait goes on, however often it looks
    let mut phase = WaitPhase::Recheck;
    for _ in 0..5 {
        match wait_for_release(phase, 1, 2, 0) {
            WaitStep::Sleep(p) | WaitStep::Look(p) => phase = p,
            other => panic!("the reader is held, but the wait came to {:?}", other),
        }
    }
    // the caller lets go
    let mut step = wait_for_release(WaitPhase::Poll, 1, 1, 0);
    for _ in 0..3 {
        match step {
            WaitStep::Sleep(p) | WaitStep::Look(p) => step = wait_for_release(p, 1, 1, 0),
            _ => break,
        }
    }
    assert_eq!(step, WaitStep::Proceed);
    assert_eq!(wait_for_release(WaitPhase::Poll, 0, 1, 0), WaitStep::Stop);
}

#[test]
fn new_with_sweep_thread_enabled_spawns_and_drops_cleanly() {
    assert_eq!(sweep_interval(1, 0), Some(1));
    assert_eq!(sweep_interval(1, 30), Some(30));
    assert_eq!(sweep_interval(0, 30), None);
}

#[test]
fn stats_reflect_config_and_counters() {
    let cache = Cache::with_budget(12345);
    let s = cache.store.stats();
    assert_eq!(s.budget_bytes, 12345);
    assert_eq!(s.n_entries, 0);
    assert_eq!(s.current_bytes, 0);
    assert_eq!(s.n_cold_fetches, 0);
    assert_eq!(s.n_evictions, 0);
    assert_eq!(s.n_madvise_calls, 0);
    let _ = format!("{:?}", s.clone());
    assert_eq!(CacheStats::default().n_entries, 0);
}

#[test]
fn is_mmap_promoted_false_for_unknown_uri() {
    assert!(!Cache::new().store.is_mmap_promoted(SuperfileUri::new_v4()));
}

#[test]
fn insert_warm_caches_and_serves_reader() {
    let mut cache = Cache::new();
    let uri = SuperfileUri::new_v4();
    let bytes = tiny_superfile_bytes();
    let size = bytes.len() as u64;
    cache.insert_warm(uri, &bytes).expect("insert_warm");

    assert!(cache.store.is_mmap_promoted(uri));
    let s = cache.store.stats();
    assert_eq!(s.n_entries, 1);
    assert_eq!(s.current_bytes, size);
    assert_eq!(s.n_cold_fetches, 0);
    assert_eq!(cache.store.current_mmap_size_bytes(), size);
    assert!(cache.files.contains(&uri.0));

    cache.reader_synchronous(uri).expect("reader");
    assert_eq!(cache.store.stats().n_cold_fetches, 0);
}

#[test]
fn insert_warm_is_idempotent() {
    let mut cache = Cache::new();
    let uri = SuperfileUri::new_v4();
    cache.insert_warm(uri, &tiny_superfile_bytes()).expect("first");
    let before = cache.store.stats().current_bytes;
    cache.insert_warm(uri, &tiny_superfile_bytes()).expect("second");
    assert_eq!(cache.store.stats().current_bytes, before);
    assert_eq!(cache.store.stats().n_entries, 1);
}

#[test]
fn insert_warm_rejects_unparseable_bytes() {
    let mut cache = Cache::new();
    let uri = SuperfileUri::new_v4();
    let err = cache.insert_warm(uri, b"not a superfile").expect_err("garbage must fail to open");
    assert_eq!(cache.store.stats().current_bytes, 0);
    assert_eq!(cache.store.stats().n_entries, 0);
    assert!(!err.message().is_empty());
}

#[test]
fn insert_warm_budget_exceeded_when_too_big() {
    let mut cache = Cache::with_budget(4);
    let uri = SuperfileUri::new_v4();
    let err = cache.insert_warm(uri, &tiny_superfile_bytes()).expect_err("must exceed budget");
    assert!(matches!(err, DiskCacheError::BudgetExceeded));
    assert_eq!(cache.store.stats().current_bytes, 0);
}

#[test]
fn a_copy_that_came_first_stays() {
    let mut cache = Cache::new();
    let uri = SuperfileUri::new_v4();
    let size = tiny_superfile_bytes().len() as u64;
    cache.reserve(size).expect("room for ours");
    cache.put(uri, tiny_superfile_bytes());
    cache.reader_synchronous(uri).expect("another fetch");
    assert_eq!(cache.store.finish_warm_insert(uri, size, 9, Ok(())).expect("lost"), false);
    assert_eq!(cache.store.stats().current_bytes, size);
}

#[test]
fn reader_synchronous_cold_then_warm_hit() {
    let mut cache = Cache::new();
    let uri = SuperfileUri::new_v4();
    let bytes = tiny_superfile_bytes();
    let size = bytes.len() as u64;
    cache.put(uri, bytes);

    cache.reader_synchronous(uri).expect("cold");
    let s = cache.store.stats();
    assert_eq!(s.n_cold_fetches, 1);
    assert_eq!(s.n_entries, 1);
    assert_eq!(s.current_bytes, size);
    assert!(cache.store.is_mmap_promoted(uri));

    cache.reader_synchronous(uri).expect("warm");
    assert_eq!(cache.store.stats().n_cold_fetches, 1);
}

#[test]
fn reader_synchronous_missing_object_errors() {
    let mut cache = Cache::new();
    let err = cache.reader_synchronous(SuperfileUri::new_v4()).expect_err("no object");
    assert!(matches!(err, DiskCacheError::Storage(StorageError::NotFound { .. })));
    assert_eq!(cache.store.stats(), CacheStats { budget_bytes: 1 << 30, ..CacheStats::default() });
}

#[test]
fn reader_hybrid_cold_then_promotes_to_mmap() {
    let mut cache = Cache::new();
    let uri = SuperfileUri::new_v4();
    cache.put(uri, tiny_superfile_bytes());
    assert_eq!(cold_path(ColdFetchMode::HybridWithPrefetch).expect("path"), ColdPath::Hybrid);
    cache.reader_hybrid(uri).expect("cold hybrid");
    assert_eq!(cache.store.stats().n_cold_fetches, 1);
    assert_eq!(cache.store.stats().n_entries, 1);
    assert!(!cache.store.is_mmap_promoted(uri));
    assert!(cache.promote(uri));
    assert!(cache.store.is_mmap_promoted(uri));
    cache.reader_hybrid(uri).expect("warm");
    assert_eq!(cache.store.stats().n_cold_fetches, 1);
}

#[test]
fn reader_hybrid_empty_object_zero_chunks() {
    assert!(hybrid_chunks(0, 8 << 20, 8).is_empty());
    let mut cache = Cache::new();
    let uri = SuperfileUri::new_v4();
    cache.put(uri, Vec::new());
    let err = cache.reader_hybrid(uri).expect_err("empty not a superfile");
    assert!(!err.message().is_empty());
    assert_eq!(cache.store.stats().current_bytes, 0);
}

#[test]
fn reader_range_only_mode_is_rejected() {
    let err = cold_path(ColdFetchMode::RangeOnly).expect_err("RangeOnly rejected");
    assert!(matches!(err, DiskCacheError::SuperfileOpen(_)));
}

fn offsets(total_size: u64) -> SubsectionOffsets {
    SubsectionOffsets {
        total_size,
        vec: None,
        fts: None,
        vec_open_ranges: Vec::new(),
        fts_open_ranges: Vec::new(),
        open_blob: Vec::new(),
    }
}

#[test]
fn sections_that_are_at_hand_may_end_anywhere() {
    let mut o = offsets(100);
    assert!(lazy_open_fits(&o));
    o.vec_open_ranges = vec![(u64::MAX, 1)];
    assert!(!lazy_open_fits(&o));
    o.open_blob = vec![(0, vec![1, 2, 3])];
    assert!(lazy_open_fits(&o));
    assert!(plan_lazy_open(&o).is_empty());
}

#[test]
fn open_range_only_unknown_size_reads_directly() {
    let mut cache = Cache::new();
    let uri = SuperfileUri::new_v4();
    cache.put(uri, tiny_superfile_bytes());
    let src = cache.store.open_range_only(&uri, None);
    assert_eq!(src.size(), 0);
    assert_eq!(src.uri(), segment_storage_path(&uri));
    // past the cache: nothing is admitted
    assert_eq!(cache.store.stats().n_entries, 0);
    assert_eq!(cache.store.stats().current_bytes, 0);
}

#[test]
fn open_range_only_known_size_reads_directly() {
    let mut cache = Cache::new();
    let uri = SuperfileUri::new_v4();
    let bytes = tiny_superfile_bytes();
    let total = bytes.len() as u64;
    cache.put(uri, bytes);
    let src = cache.store.open_range_only(&uri, Some(&offsets(total)));
    assert_eq!(src.size(), total);
    assert_eq!(src.uri(), segment_storage_path(&uri));
    assert_eq!(cache.store.stats().n_entries, 0);
}

#[test]
fn reader_lazy_with_hints_known_size_promotes() {
    assert_eq!(
        cold_path(ColdFetchMode::LazyForegroundWithBackgroundFill).expect("path"),
        ColdPath::Lazy
    );
    let plan = plan_lazy_open(&offsets(104));
    assert_eq!(plan, vec![ByteRange { start: 0, end: 104 }]);

    let mut cache = Cache::new();
    let uri = SuperfileUri::new_v4();
    cache.put(uri, tiny_superfile_bytes());
    cache.reader_hybrid(uri).expect("lazy hinted cold");
    assert_eq!(cache.store.stats().n_cold_fetches, 1);
    assert!(cache.promote(uri));
    assert!(cache.store.is_mmap_promoted(uri));
}

#[test]
fn open_plans_name_the_sections() {
    let mut o = offsets(1 << 20);
    o.vec = Some((1000, 5000));
    o.fts = Some((7000, 20));
    let plan = plan_lazy_open(&o);
    assert_eq!(plan[0], ByteRange { start: (1 << 20) - 65536, end: 1 << 20 });
    assert!(plan.contains(&ByteRange { start: 1000, end: 1032 }));
    assert!(plan.contains(&ByteRange { start: 7000, end: 7020 }));
    o.vec_open_ranges = vec![(1000, 64), (2000, 10)];
    let plan = plan_lazy_open(&o);
    assert!(plan.contains(&ByteRange { start: 1000, end: 1064 }));
    assert!(plan.contains(&ByteRange { start: 2000, end: 2010 }));
}

#[test]
fn wait_until_mmap_promoted_times_out_for_unpromoted() {
    assert_eq!(promotion_step(false, 0, 30_000), PromotionStep::Sleep);
    assert_eq!(promotion_step(true, 29_999, 30_000), PromotionStep::Promoted);
    assert_eq!(promotion_step(false, 30_000, 30_000), PromotionStep::TimedOut);
}

#[test]
fn cold_fetch_evicts_lru_when_over_budget() {
    let entry_size = tiny_superfile_bytes().len() as u64;
    let mut cache = Cache::with_budget(entry_size + entry_size / 2);
    let uri_a = SuperfileUri::new_v4();
    let uri_b = SuperfileUri::new_v4();
    cache.put(uri_a, tiny_superfile_bytes());
    cache.put(uri_b, tiny_superfile_bytes());
    cache.reader_synchronous(uri_a).expect("a");
    cache.reader_synchronous(uri_b).expect("b");

    assert_eq!(cache.store.stats().n_evictions, 1);
    assert!(cache.store.contains(uri_b));
    assert!(!cache.store.contains(uri_a));
    assert!(!cache.files.contains(&uri_a.0));
    assert_eq!(cache.store.stats().current_bytes, entry_size);
}

#[test]
fn cold_fetch_budget_exceeded_with_all_pinned() {
    let entry_size = tiny_superfile_bytes().len() as u64;
    let mut cache = Cache::with_budget(entry_size + entry_size / 2);
    let uri_a = SuperfileUri::new_v4();
    let uri_b = SuperfileUri::new_v4();
    cache.put(uri_a, tiny_superfile_bytes());
    cache.put(uri_b, tiny_superfile_bytes());
    cache.reader_synchronous(uri_a).expect("a");
    cache.pinned = vec![uri_a];
    let err = cache.reader_synchronous(uri_b).expect_err("no eligible victims");
    assert!(matches!(err, DiskCacheError::BudgetExceeded));
    assert!(cache.store.contains(uri_a));
    assert_eq!(cache.store.stats().current_bytes, entry_size);
}

#[test]
fn use_keeps_a_superfile_from_eviction() {
    let size = tiny_superfile_bytes().len() as u64;
    let mut cache = Cache::with_budget(2 * size);
    let uris: Vec<SuperfileUri> = (0..3).map(|_| SuperfileUri::new_v4()).collect();
    for u in &uris {
        cache.put(*u, tiny_superfile_bytes());
    }
    cache.reader_synchronous(uris[0]).expect("a");
    cache.reader_synchronous(uris[1]).expect("b");
    cache.reader_synchronous(uris[0]).expect("a again");
    cache.reader_synchronous(uris[2]).expect("c");
    assert!(cache.store.contains(uris[0]));
    assert!(!cache.store.contains(uris[1]));
}

#[test]
fn no_more_leave_than_must() {
    let mut store = DiskCacheStore::new(100);
    for i in 0..4u64 {
        assert!(store.reserve(25, &[]).outcome.is_ok());
        store.register(SuperfileUri(i as u128), 25, true, i);
    }
    let room = store.reserve(30, &[SuperfileUri(1)]);
    assert!(room.outcome.is_ok());
    assert_eq!(room.evicted, vec![SuperfileUri(0), SuperfileUri(2)]);
    assert_eq!(store.stats().current_bytes, 80);
    store.release(30);
    assert_eq!(store.stats().current_bytes, 50);
    let room = store.reserve(60, &[SuperfileUri(1), SuperfileUri(3)]);
    assert!(matches!(room.outcome, Err(DiskCacheError::BudgetExceeded)));
    assert!(room.evicted.is_empty());
}

#[test]
fn the_policy_passes_over_what_is_in_use() {
    let c = |k: u128, size: u64, at: u64| EvictionCandidate {
        uri: SuperfileUri(k),
        size_bytes: size,
        last_access_us: at,
    };
    let all = [c(1, 10, 30), c(2, 10, 10), c(3, 10, 20)];
    let victims = LruPolicy.select_for_eviction(&all, &[SuperfileUri(2)], 15);
    assert_eq!(victims, vec![SuperfileUri(3), SuperfileUri(1)]);
    assert!(LruPolicy.select_for_eviction(&all, &[], 0).is_empty());
}

#[test]
fn what_was_evicted_stays_evicted() {
    let mut cache = Cache::new();
    let uri = SuperfileUri::new_v4();
    cache.put(uri, tiny_superfile_bytes());
    cache.reader_hybrid(uri).expect("cold");
    assert!(cache.store.roll_back(uri));
    assert!(!cache.promote(uri));
    assert!(!cache.store.roll_back(uri));
    assert_eq!(cache.store.stats().current_bytes, 0);
}

#[test]
fn sweep_once_advises_idle_mmap_entries() {
    let mut cache = Cache::new();
    let uri = SuperfileUri::new_v4();
    cache.insert_warm(uri, &tiny_superfile_bytes()).expect("warm");
    assert_eq!(cache.store.sweep_once(1, 0), vec![uri]);
    assert_eq!(cache.store.stats().n_madvise_calls, 1);
    assert_eq!(cache.store.sweep_once(1, 0).len(), 1);
    assert_eq!(cache.store.stats().n_madvise_calls, 2);
}

#[test]
fn sweep_once_skips_when_threshold_not_reached() {
    let mut cache = Cache::new();
    let uri = SuperfileUri::new_v4();
    cache.insert_warm(uri, &tiny_superfile_bytes()).expect("warm");
    assert_eq!(cache.store.sweep_once(2_000_000, 1_000_000).len(), 0);
    assert_eq!(cache.store.stats().n_madvise_calls, 0);
    // the bytes of a superfile that is not mapped are not swept
    let other = SuperfileUri::new_v4();
    cache.put(other, tiny_superfile_bytes());
    cache.reader_hybrid(other).expect("cold");
    assert_eq!(cache.store.sweep_once(u64::MAX, 1), vec![uri]);
}

#[test]
fn sweep_for_budget_noop_under_budget() {
    let mut cache = Cache::new();
    cache.insert_warm(SuperfileUri::new_v4(), &tiny_superfile_bytes()).expect("warm");
    assert_eq!(cache.store.sweep_for_budget(u64::MAX).len(), 0);
    assert_eq!(cache.store.stats().n_madvise_calls, 0);
}

#[test]
fn sweep_for_budget_reclaims_oldest_first() {
    let mut cache = Cache::new();
    let (a, b) = (SuperfileUri::new_v4(), SuperfileUri::new_v4());
    cache.insert_warm(a, &tiny_superfile_bytes()).expect("warm");
    let resident = cache.store.current_mmap_size_bytes();
    assert!(resident > 0);
    assert_eq!(cache.store.sweep_for_budget(0).len(), 1);
    assert_eq!(cache.store.stats().n_madvise_calls, 1);
    cache.insert_warm(b, &tiny_superfile_bytes()).expect("warm");
    assert_eq!(cache.store.sweep_for_budget(resident), vec![a]);
}

#[test]
fn current_mmap_size_bytes_zero_when_empty() {
    assert_eq!(Cache::new().store.current_mmap_size_bytes(), 0);
}

#[test]
fn disk_cache_error_displays_all_variants() {
    let variants = [
        DiskCacheError::SuperfileOpen("x".to_string()),
        DiskCacheError::BudgetExceeded,
        DiskCacheError::Io("boom".to_string()),
    ];
    for v in variants {
        assert!(!v.message().is_empty());
        assert!(!format!("{v:?}").is_empty());
    }
}

#[test]
fn chunks_cover_an_object_and_join_to_it() {
    let object: Vec<u8> = (0..=255).collect();
    let ranges = fill_chunks(object.len() as u64, 100);
    assert_eq!(
        ranges,
        vec![
            ByteRange { start: 0, end: 100 },
            ByteRange { start: 100, end: 200 },
            ByteRange { start: 200, end: 256 },
        ]
    );
    let parts: Vec<Vec<u8>> =
        ranges.iter().map(|r| object[r.start as usize..r.end as usize].to_vec()).collect();
    assert_eq!(assemble_chunks(&parts), object);
    // a small object is spread over no more chunks than its size asks for
    assert_eq!(hybrid_chunks(10, 100, 4), vec![ByteRange { start: 0, end: 10 }]);
    assert_eq!(hybrid_chunks(1000, 100, 4).len(), 4);
}

#[test]
fn shared_fetches_fail_only_for_want_of_room() {
    assert!(matches!(after_hybrid_fetch(None), SharedFetch::Serve));
    assert!(matches!(
        after_hybrid_fetch(Some(&DiskCacheError::BudgetExceeded)),
        SharedFetch::Fail(DiskCacheError::BudgetExceeded)
    ));
    let other = DiskCacheError::Io("boom".to_string());
    assert!(matches!(after_hybrid_fetch(Some(&other)), SharedFetch::Again));
    assert!(matches!(second_try_error(Err(other), ColdPath::Hybrid), DiskCacheError::Io(_)));
    assert!(matches!(
        second_try_error(Ok(()), ColdPath::Lazy),
        DiskCacheError::SuperfileOpen(s) if s == "lazy cold fetch error"
    ));
}

#[test]
fn a_fill_goes_through_its_steps() {
    assert!(matches!(fill_action(FillEvent::Released, false), FillAction::AcquirePermit));
    assert!(matches!(fill_action(FillEvent::Permit(Ok(())), false), FillAction::Fetch));
    assert!(matches!(fill_action(FillEvent::Fetched(Ok(true)), false), FillAction::Promote));
    assert!(matches!(fill_action(FillEvent::Promoted(Ok(())), false), FillAction::Done));
    assert!(matches!(
        fill_action(FillEvent::Fetched(Err(DiskCacheError::Io("boom".to_string()))), false),
        FillAction::RollBack { remove_file: true, error: Some(DiskCacheError::Io(_)) }
    ));
    assert!(matches!(
        fill_action(FillEvent::Released, true),
        FillAction::RollBack { remove_file: true, error: None }
    ));
    assert_eq!(chunk_step(0, 3, 0, 2, false), ChunkStep::Start(0));
    assert_eq!(chunk_step(2, 3, 2, 2, false), ChunkStep::Await);
    assert_eq!(chunk_step(3, 3, 0, 2, false), ChunkStep::Complete);
    assert_eq!(chunk_step(1, 3, 1, 2, true), ChunkStep::GiveUp);
}

#[test]
fn settings_are_read() {
    assert_eq!(prefetch_permits(0), 1);
    assert_eq!(prefetch_permits(6), 6);
    assert!(skip_background_fill(Some("1")));
    assert!(!skip_background_fill(None));
    assert!(!skip_background_fill(Some("0")));
}
