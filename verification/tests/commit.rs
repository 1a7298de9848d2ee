use std::collections::HashMap;
use std::sync::Arc;

use arrow::datatypes::Schema;
use arrow::ipc::reader::StreamReader;
use arrow::ipc::writer::StreamWriter;
use supertable::chunks::{chunk_ranges, ByteRange};
use supertable::column_map::ColumnMap;
use supertable::error::{CommitError, StorageError};
use supertable::manifest::commit::{
    finish_part_write, finish_pointer_read, finish_pointer_write, list_uri, part_uri,
    pointer_to_publish, pointer_write, prepare_manifest_list, prepare_manifest_part,
    translate_contention, ListWriteResult, PartWriteResult, PointerFile, PointerWrite,
    POINTER_PATH,
};
use supertable::manifest::ipc::ipc_encode_length1;
use supertable::manifest::list::{
    ManifestList, ManifestListEntry, PartitionStrategy, VectorSummaryAgg,
};
use supertable::manifest::list_dto::{list_from_dto, list_to_dto};
use supertable::manifest::options_hash::compute_options_hash;
use supertable::manifest::part::{decode, ContentHash, ManifestPart, PartId};
use supertable::manifest::partition::{
    assign_partition, decode_partition_key, encode_partition_key, stored_key_form, Boundary,
    PartitionKey,
};
use supertable::manifest::{
    Manifest, ManifestLoadError, ScalarStatsTable, SuperfileEntry, SuperfileList, SuperfileUri,
};
use supertable::options::{Field, SupertableOptions};
use supertable::scalar::{DataType, Scalar, ScalarValue, TypeKind};
use supertable::stats::{process_rss_bytes, rss_figure, SupertableStats};
use supertable::writer::assemble::{assemble, commit_strategy, next_list, ZSTD_LEVEL};
use supertable::writer::groups::{group_by_partition, stamp_partitions};
use supertable::writer::plan::{parts_to_load, plan_steps, Step};
use supertable::writer::retry::{
    after_attempt, backoff_delay, finish_list_read, finish_part_loads, is_stale, missing_parts,
    published_manifest, refreshed_manifest, AfterAttempt,
};
use supertable::writer::upload::{
    finish_pointer_head, finish_segment_put, finish_segment_puts, finish_upload, put_mode,
    segment_storage_path, start_upload, PutMode, UploadEnd, UploadStart, PART_BYTES,
};

fn options() -> SupertableOptions {
    let field = Field {
        name: "ts".to_string(),
        data_type: DataType { kind: TypeKind::Int64, name: "Int64".to_string() },
        nullable: false,
    };
    SupertableOptions::new(vec![field], vec![], vec![], false).expect("options")
}

fn schema() -> Schema {
    Schema::new(vec![arrow::datatypes::Field::new("ts", arrow::datatypes::DataType::Int64, false)])
}

/// The stream of the schema that the options are made for.
fn schema_stream() -> Vec<u8> {
    StreamWriter::try_new(Vec::new(), &schema())
        .and_then(|w| w.into_inner())
        .expect("schema stream")
}

fn superfile(ts: Option<(i64, i64)>, hint: Option<u32>) -> Arc<SuperfileEntry> {
    let mut scalar_stats = ScalarStatsTable::new();
    if let Some((lo, hi)) = ts {
        let value = |x: i64| Scalar {
            data_type: DataType { kind: TypeKind::Int64, name: "Int64".to_string() },
            value: Some(ScalarValue::Int(x as i128)),
        };
        scalar_stats.cols.insert("ts".to_string(), (value(lo), value(hi)));
    }
    let uri = SuperfileUri::new_v4();
    Arc::new(SuperfileEntry {
        superfile_id: uri.0,
        uri,
        n_docs: 1,
        id_min: 0,
        id_max: 0,
        scalar_stats,
        fts_summary: ColumnMap::new(),
        vector_summary: ColumnMap::new(),
        partition_key: Vec::new(),
        partition_hint: hint,
    })
}

fn by_day() -> PartitionStrategy {
    PartitionStrategy::TimeRange { column: "ts".to_string(), granularity_secs: 86_400 }
}

fn by_hash(n_buckets: u32) -> PartitionStrategy {
    PartitionStrategy::Hash { column: "_id".to_string(), n_buckets }
}

// ------------------------------------------------------------ partitions

#[test]
fn time_buckets_round_down() {
    let key = |t: i64| assign_partition(&superfile(Some((t, t)), None), &by_day(), &[]);
    assert_eq!(key(0).expect("key"), PartitionKey::TimeRange(0));
    assert_eq!(key(86_399).expect("key"), PartitionKey::TimeRange(0));
    assert_eq!(key(86_400).expect("key"), PartitionKey::TimeRange(1));
    assert_eq!(key(-1).expect("key"), PartitionKey::TimeRange(u64::MAX));
}

#[test]
fn a_superfile_over_two_buckets_is_refused() {
    let e = assign_partition(&superfile(Some((86_399, 86_400)), None), &by_day(), &[]);
    assert!(matches!(e, Err(CommitError::SuperfileSpansPartition { .. })));
    let e = assign_partition(&superfile(None, None), &by_day(), &[]);
    assert!(matches!(e, Err(CommitError::SuperfileSpansPartition { .. })));
    let none = PartitionStrategy::TimeRange { column: "ts".to_string(), granularity_secs: 0 };
    let e = assign_partition(&superfile(Some((0, 0)), None), &none, &[]).expect_err("no granularity");
    assert!(e.message().contains("granularity_secs must be > 0; got 0"), "{}", e.message());
}

#[test]
fn hash_buckets_come_from_the_hint() {
    let key = |hint, n| assign_partition(&superfile(None, hint), &by_hash(n), &[]);
    assert_eq!(key(None, 1).expect("key"), PartitionKey::Hash(0));
    assert_eq!(key(Some(9), 1).expect("key"), PartitionKey::Hash(0));
    assert_eq!(key(Some(3), 4).expect("key"), PartitionKey::Hash(3));
    assert!(key(Some(4), 4).is_err());
    assert!(key(None, 4).is_err());
}

fn whole(n: i128) -> Scalar {
    Scalar {
        data_type: DataType { kind: TypeKind::Int64, name: "Int64".to_string() },
        value: Some(ScalarValue::Int(n)),
    }
}

fn between(values: &[Boundary]) -> PartitionStrategy {
    let boundaries = values
        .iter()
        .map(|b| ipc_encode_length1(&b.name, &b.value).expect("stream"))
        .collect();
    PartitionStrategy::ColumnRange { column: "ts".to_string(), boundaries }
}

fn limits(values: &[i128]) -> Vec<Boundary> {
    values.iter().map(|n| Boundary { name: "ts".to_string(), value: whole(*n) }).collect()
}

#[test]
fn intervals_hold_their_lower_boundary() {
    let values = limits(&[10, 20]);
    let range = between(&values);
    let key = |min, max| assign_partition(&superfile(Some((min, max)), None), &range, &values);
    assert_eq!(key(-5, 9).expect("key"), PartitionKey::ColumnRange(0));
    assert_eq!(key(10, 19).expect("key"), PartitionKey::ColumnRange(1));
    assert_eq!(key(20, i64::MAX).expect("key"), PartitionKey::ColumnRange(2));
    for (min, max) in [(9, 10), (0, 25), (19, 20)] {
        let e = key(min, max).expect_err("two intervals");
        assert!(matches!(e, CommitError::SuperfileSpansPartition { .. }));
    }
    let all = assign_partition(&superfile(Some((-7, 7)), None), &between(&[]), &[]);
    assert_eq!(all.expect("key"), PartitionKey::ColumnRange(0));
}

#[test]
fn boundaries_are_held_against_their_bytes() {
    let values = limits(&[10, 20]);
    let range = between(&values);
    let e = superfile(Some((0, 5)), None);
    assert!(assign_partition(&e, &range, &limits(&[10, 21])).is_err());
    assert!(assign_partition(&e, &range, &limits(&[10])).is_err());
    assert!(assign_partition(&e, &range, &[]).is_err());
    assert!(assign_partition(&superfile(None, None), &range, &values).is_err(), "no bounds");
    let text = vec![Boundary {
        name: "ts".to_string(),
        value: Scalar {
            data_type: DataType { kind: TypeKind::Utf8, name: "Utf8".to_string() },
            value: Some(ScalarValue::Text("m".to_string())),
        },
    }];
    assert!(assign_partition(&e, &between(&text), &text).is_err(), "another type");
    let garbage = PartitionStrategy::ColumnRange {
        column: "ts".to_string(),
        boundaries: vec![vec![1, 2, 3]],
    };
    assert!(assign_partition(&e, &garbage, &limits(&[1])).is_err());
}

#[test]
fn partition_keys_come_back() {
    let strategies = [
        (PartitionKey::TimeRange(u64::MAX - 1), by_day()),
        (PartitionKey::Hash(0x0102_0304), by_hash(4)),
        (
            PartitionKey::ColumnRange(7),
            PartitionStrategy::ColumnRange { column: "ts".to_string(), boundaries: vec![] },
        ),
    ];
    for (key, strategy) in strategies {
        let bytes = encode_partition_key(&key);
        assert_eq!(decode_partition_key(&bytes, &strategy).expect("key"), key);
        assert!(decode_partition_key(&bytes[1..], &strategy).is_err());
    }
    assert_eq!(encode_partition_key(&PartitionKey::Hash(0x0102_0304)), vec![4, 3, 2, 1]);
}

// ------------------------------------------------------------ pointer file

#[test]
fn names_of_lists_and_parts() {
    assert_eq!(list_uri(7), "manifest-lists/list-000007.json");
    assert_eq!(list_uri(12_345_678), "manifest-lists/list-12345678.json");
    assert_eq!(
        part_uri(&ContentHash([0xab; 32])),
        format!("manifests/part-{}.avro.zst", "ab".repeat(32))
    );
    assert_eq!(POINTER_PATH, "_supertable/current");
    assert_eq!(
        segment_storage_path(&SuperfileUri(1)),
        "data/seg-00000000-0000-0000-0000-000000000001.sf"
    );
}

#[test]
fn lists_are_listed_by_version() {
    let versions = [0, 9, 10, 99, 100, 54_321, 99_999, 100_000, 999_999];
    for pair in versions.windows(2) {
        assert!(list_uri(pair[0]) < list_uri(pair[1]));
    }
    assert!(list_uri(1_000_000) < list_uri(999_999), "seven digits sort by the first");
}

#[test]
fn names_of_parts_tell_hashes_apart() {
    let mut other = [7u8; 32];
    other[31] = 8;
    assert_eq!(part_uri(&ContentHash([7; 32])), part_uri(&ContentHash([7; 32])));
    assert_ne!(part_uri(&ContentHash([7; 32])), part_uri(&ContentHash(other)));
}

fn pointer() -> PointerFile {
    PointerFile {
        manifest_id: 42,
        manifest_list_uri: "manifest-lists/list-000042.json".to_string(),
        content_hash: ContentHash([0x5a; 32]),
    }
}

#[test]
fn pointer_files_are_text_and_come_back() {
    let bytes = pointer().to_bytes();
    let text = String::from_utf8(bytes.clone()).expect("text");
    assert_eq!(
        text,
        format!(
            "manifest_id=42\nmanifest_list_uri=manifest-lists/list-000042.json\n\
             content_hash=blake3:{}\n",
            "5a".repeat(32)
        )
    );
    let back = PointerFile::from_bytes(&bytes).expect("pointer");
    assert_eq!(back.manifest_id, 42);
    assert_eq!(back.manifest_list_uri, "manifest-lists/list-000042.json");
    assert_eq!(back.content_hash, ContentHash([0x5a; 32]));
}

#[test]
fn broken_pointer_files_are_refused() {
    let broken: [&[u8]; 5] = [
        b"",
        b"\xff\xfe",
        b"manifest_id=x\n",
        b"manifest_id=1\nmanifest_list_uri=a\n",
        b"manifest_id=1\nmanifest_list_uri=a\ncontent_hash=sha256:00\n",
    ];
    for bytes in broken {
        assert!(
            matches!(PointerFile::from_bytes(bytes), Err(CommitError::PointerParse(_))),
            "{:?}",
            bytes
        );
    }
}

#[test]
fn reading_the_pointer_of_a_new_table() {
    let gone = StorageError::NotFound { uri: POINTER_PATH.to_string() };
    assert!(finish_pointer_read(Err(gone)).expect("no pointer").is_none());
    let fault =
        StorageError::Permanent { uri: POINTER_PATH.to_string(), detail: "no".to_string() };
    assert!(matches!(finish_pointer_read(Err(fault)), Err(CommitError::Storage(_))));
    let read = finish_pointer_read(Ok(pointer().to_bytes())).expect("pointer").expect("there");
    assert_eq!(read.manifest_id, 42);
    assert_eq!(pointer_write(false), PointerWrite::Create);
    assert_eq!(pointer_write(true), PointerWrite::ReplaceIfMatch);
    let gone = StorageError::NotFound { uri: POINTER_PATH.to_string() };
    assert!(finish_pointer_head(Err(gone)).expect("no pointer").is_none());
    assert_eq!(
        finish_pointer_head(Ok(Some("tag".to_string()))).expect("tag"),
        Some("tag".to_string())
    );
}

fn lost() -> StorageError {
    StorageError::PreconditionFailed { uri: "x".to_string() }
}

#[test]
fn a_part_that_is_there_already_is_as_good() {
    let part = ManifestPart {
        format_version: "1.0".to_string(),
        part_id: PartId(1),
        superfiles: vec![superfile(None, None)],
    };
    let (prepared, bytes) = prepare_manifest_part(&part, 3);
    assert_eq!(prepared.part_id, PartId(1));
    assert_eq!(prepared.content_hash, ContentHash::of(&bytes));
    assert_eq!(prepared.uri, part_uri(&prepared.content_hash));
    assert_eq!(prepared.size_bytes_compressed, bytes.len() as u64);
    assert_eq!(decode(&bytes).expect("part").part_id, PartId(1));
    assert!(finish_part_write(Err(lost()), prepared).is_ok());
    assert!(matches!(
        finish_pointer_write(Err(lost())),
        Err(CommitError::WriteContentionExhausted)
    ));
    assert!(matches!(
        translate_contention(CommitError::Storage(lost())),
        CommitError::WriteContentionExhausted
    ));
    assert!(finish_segment_put(Err(lost())).is_ok());
}

#[test]
fn the_pointer_names_the_list_only_when_all_is_written() {
    let list = || -> Result<ListWriteResult, CommitError> {
        Ok(prepare_manifest_list(9, b"{}"))
    };
    let p = pointer_to_publish(9, list(), vec![]).expect("pointer");
    assert_eq!(p.manifest_id, 9);
    assert_eq!(p.manifest_list_uri, "manifest-lists/list-000009.json");
    assert_eq!(p.content_hash, ContentHash::of(b"{}"));
    let failed: Vec<Result<PartWriteResult, CommitError>> =
        vec![Err(CommitError::Encode("boom".to_string()))];
    assert!(matches!(pointer_to_publish(9, list(), failed), Err(CommitError::Encode(_))));
    assert!(matches!(
        pointer_to_publish(9, Err(CommitError::Storage(lost())), vec![]),
        Err(CommitError::WriteContentionExhausted)
    ));
}

// ------------------------------------------------------------ commits

/// Objects by name.
struct Storage {
    objects: HashMap<String, Vec<u8>>,
}

/// One commit on top of a list: the new list, and what it wrote.
fn commit(
    storage: &mut Storage,
    opts: &SupertableOptions,
    old: Option<&ManifestList>,
    entries: &[Arc<SuperfileEntry>],
) -> Result<ManifestList, CommitError> {
    let none: Vec<ManifestListEntry> = Vec::new();
    let old_parts = match old {
        Some(l) => &l.parts,
        None => &none,
    };
    let strategy = commit_strategy(old, opts);
    let entries = stamp_partitions(entries, &strategy, &[])?;
    let groups = group_by_partition(&entries, &strategy, &[])?;
    let loads: Vec<Result<Arc<ManifestPart>, ManifestLoadError>> =
        parts_to_load(&strategy, old_parts, &groups)
            .into_iter()
            .map(|i| Ok(Arc::new(decode(&storage.objects[&old_parts[i].uri]).expect("part"))))
            .collect();
    let steps = plan_steps(
        &strategy,
        old_parts,
        &groups,
        loads,
        opts.target_superfiles_per_partition,
        opts.part_size_threshold_bytes,
    )?;
    let builds = steps.iter().filter(|s| matches!(s, Step::Build { .. })).count();
    let aggs: Vec<ColumnMap<VectorSummaryAgg>> = (0..builds).map(|_| ColumnMap::new()).collect();
    let (parts, written) = assemble(old_parts, steps, aggs);
    for p in &written {
        let (prepared, bytes) = prepare_manifest_part(p, ZSTD_LEVEL);
        storage.objects.insert(prepared.uri, bytes);
    }
    let id = old.map(|l| l.manifest_id).unwrap_or(0) + 1;
    Ok(next_list(opts, schema_stream(), strategy, id, parts))
}

fn superfiles_of(storage: &Storage, list: &ManifestList) -> Vec<u128> {
    let mut all = Vec::new();
    for e in &list.parts {
        let bytes = &storage.objects[&e.uri];
        assert_eq!(ContentHash::of(bytes), e.content_hash);
        let part = decode(bytes).expect("part");
        assert_eq!(part.part_id, e.part_id);
        assert_eq!(part.superfiles.len() as u64, e.n_superfiles);
        all.extend(part.superfiles.iter().map(|s| s.uri.0));
    }
    all.sort();
    all
}

fn uris(entries: &[Arc<SuperfileEntry>]) -> Vec<u128> {
    let mut all: Vec<u128> = entries.iter().map(|e| e.uri.0).collect();
    all.sort();
    all
}

#[test]
fn commits_touch_only_their_partitions() {
    let mut storage = Storage { objects: HashMap::new() };
    let opts = options().with_partition_strategy(by_day());
    let day0 = superfile(Some((10, 20)), None);
    let day1 = superfile(Some((86_400, 86_500)), None);
    let first = commit(&mut storage, &opts, None, &[day0.clone(), day1.clone()]).expect("first");
    assert_eq!(first.manifest_id, 1);
    assert_eq!(first.parts.len(), 2);
    assert_eq!(first.options_hash, compute_options_hash(&opts, &by_day()));

    let more = superfile(Some((86_600, 86_700)), None);
    let second = commit(&mut storage, &opts, Some(&first), &[more.clone()]).expect("second");
    assert_eq!(second.manifest_id, 2);
    assert_eq!(second.parts.len(), 2);
    assert_eq!(second.parts[0].content_hash, first.parts[0].content_hash);
    assert_ne!(second.parts[1].content_hash, first.parts[1].content_hash);
    assert_eq!(second.parts[1].n_superfiles, 2);
    assert_eq!(superfiles_of(&storage, &second), uris(&[day0, day1, more]));
}

#[test]
fn a_full_part_is_left_and_another_begun() {
    let mut storage = Storage { objects: HashMap::new() };
    let opts = options().with_target_superfiles_per_partition(2);
    let mut list: Option<ManifestList> = None;
    let mut all = Vec::new();
    for _ in 0..5 {
        let s = superfile(None, None);
        list = Some(commit(&mut storage, &opts, list.as_ref(), &[s.clone()]).expect("commit"));
        all.push(s);
    }
    let list = list.expect("list");
    let sizes: Vec<u64> = list.parts.iter().map(|p| p.n_superfiles).collect();
    assert_eq!(sizes.iter().sum::<u64>(), 5);
    assert!(sizes.iter().all(|n| *n <= 2), "{:?}", sizes);
    assert_eq!(superfiles_of(&storage, &list), uris(&all));
}

#[test]
fn superfiles_and_lists_carry_their_partition() {
    let e = superfile(Some((86_400, 86_500)), Some(2));
    let stamped = |s: &PartitionStrategy| {
        let all = stamp_partitions(&[Arc::clone(&e)], s, &[]).expect("partition");
        let groups = group_by_partition(&all, s, &[]).expect("groups");
        assert_eq!(groups.len(), 1);
        assert_eq!(groups[0].key, all[0].partition_key);
        assert_eq!(all[0].uri, e.uri);
        assert_eq!(all[0].id_max, e.id_max);
        all[0].partition_key.clone()
    };
    assert_eq!(stamped(&by_day()), vec![1, 0, 0, 0, 0, 0, 0, 0]);
    assert_eq!(stamped(&by_hash(4)), vec![2, 0, 0, 0]);
    assert!(stamped(&by_hash(1)).is_empty(), "one partition is none");
    assert_eq!(decode_partition_key(&[], &by_hash(1)).expect("key"), PartitionKey::Hash(0));
    assert!(decode_partition_key(&[], &by_hash(2)).is_err());
    let err = stamp_partitions(&[superfile(None, None)], &by_day(), &[]).expect_err("no bounds");
    assert!(matches!(err, CommitError::SuperfileSpansPartition { .. }));
}

#[test]
fn lists_carry_the_schema() {
    let mut storage = Storage { objects: HashMap::new() };
    let list = commit(&mut storage, &options(), None, &[superfile(None, None)]).expect("commit");
    let read = StreamReader::try_new(list.schema.as_slice(), None).expect("a stream");
    assert_eq!(read.schema().as_ref(), &schema());
    let dto = list_to_dto(&list);
    let again = list_from_dto(&dto).expect("list");
    assert_eq!(again.schema, list.schema);
}

#[test]
fn a_part_of_the_one_partition_is_found_by_its_number() {
    let mut storage = Storage { objects: HashMap::new() };
    let opts = options();
    let old = superfile(None, None);
    let mut first = commit(&mut storage, &opts, None, &[old.clone()]).expect("first");
    first.parts[0].partition_key = vec![0, 0, 0, 0];
    let new = superfile(None, None);
    let next = commit(&mut storage, &opts, Some(&first), &[new.clone()]).expect("second");
    assert_eq!(next.parts.len(), 1, "the part is written anew with both");
    assert_eq!(next.parts[0].n_superfiles, 2);
    assert!(next.parts[0].partition_key.is_empty());
    assert_eq!(superfiles_of(&storage, &next), uris(&[old, new]));
    // a number that no superfile has is of another partition
    first.parts[0].partition_key = vec![1, 0, 0, 0];
    let new = superfile(None, None);
    let next = commit(&mut storage, &opts, Some(&first), &[new]).expect("second");
    assert_eq!(next.parts.len(), 2);
    // with more buckets the bytes are the key
    assert_eq!(stored_key_form(&by_hash(2), &[0, 0, 0, 0]), vec![0, 0, 0, 0]);
    assert!(stored_key_form(&by_hash(1), &[0, 0, 0, 0]).is_empty());
    assert!(stored_key_form(&by_hash(1), &[]).is_empty());
}

#[test]
fn a_large_part_is_left_and_another_begun() {
    let mut storage = Storage { objects: HashMap::new() };
    let opts = options();
    let first = commit(&mut storage, &opts, None, &[superfile(None, None)]).expect("first");
    let size = first.parts[0].size_bytes_compressed;
    let more = [superfile(None, None)];
    let opts = opts.with_part_size_threshold_bytes(size + 1);
    let joined = commit(&mut storage, &opts, Some(&first), &more).expect("room left");
    assert_eq!(joined.parts.len(), 1);
    assert_eq!(joined.parts[0].n_superfiles, 2);
    let opts = opts.with_part_size_threshold_bytes(size);
    let split = commit(&mut storage, &opts, Some(&first), &more).expect("no room left");
    assert_eq!(split.parts.len(), 2);
    assert_eq!(split.parts[0].part_id, first.parts[0].part_id);
    assert_eq!(split.parts[1].n_superfiles, 1);
    assert_eq!(split.parts[1].partition_key, first.parts[0].partition_key);
}

#[test]
fn a_part_that_cannot_be_read_fails_the_commit() {
    let mut storage = Storage { objects: HashMap::new() };
    let opts = options();
    let first = commit(&mut storage, &opts, None, &[superfile(None, None)]).expect("first");
    let groups = group_by_partition(&[superfile(None, None)], &by_hash(1), &[]).expect("groups");
    assert_eq!(parts_to_load(&by_hash(1), &first.parts, &groups), vec![0]);
    let err = plan_steps(
        &by_hash(1),
        &first.parts,
        &groups,
        vec![Err(ManifestLoadError::NoLoaderAttached)],
        10_000,
        10_485_760,
    )
    .expect_err("not loaded");
    assert!(matches!(err, CommitError::PointerParse(_)));
    let err = group_by_partition(&[superfile(None, None)], &by_hash(8), &[]).expect_err("no hint");
    assert!(matches!(err, CommitError::SuperfileSpansPartition { .. }));
}

#[test]
fn the_strategy_of_the_list_counts() {
    let opts = options().with_partition_strategy(by_day());
    assert!(matches!(commit_strategy(None, &opts), PartitionStrategy::TimeRange { .. }));
    let list = next_list(&opts, schema_stream(), by_hash(3), 1, vec![]);
    assert!(matches!(
        commit_strategy(Some(&list), &opts),
        PartitionStrategy::Hash { n_buckets: 3, .. }
    ));
}

// ------------------------------------------------------------ tries

#[test]
fn waits_double_up_to_a_second() {
    assert_eq!(backoff_delay(0, 30), 10);
    assert_eq!(backoff_delay(1, 30), 20);
    assert_eq!(backoff_delay(6, 30), 640);
    assert_eq!(backoff_delay(7, 30), 1000);
    assert_eq!(backoff_delay(u32::MAX, 30), 1000);
    assert_eq!(backoff_delay(0, 0), 7);
    assert_eq!(backoff_delay(0, 60), 13);
    assert_eq!(backoff_delay(9, 60), 1300);
    assert_eq!(backoff_delay(9, 0), 700);
}

#[test]
fn only_contention_is_tried_again() {
    let contention = || Err(CommitError::WriteContentionExhausted);
    assert!(matches!(after_attempt(0, 3, Ok(())), AfterAttempt::Published));
    assert!(matches!(after_attempt(0, 3, contention()), AfterAttempt::Retry(1)));
    assert!(matches!(
        after_attempt(2, 3, contention()),
        AfterAttempt::Failed(CommitError::WriteContentionExhausted)
    ));
    assert!(matches!(
        after_attempt(0, 3, Err(CommitError::Encode("boom".to_string()))),
        AfterAttempt::Failed(CommitError::Encode(_))
    ));
}

fn table_of(storage: &mut Storage) -> (SupertableOptions, ManifestList) {
    let opts = options().with_partition_strategy(by_day());
    let entries = [superfile(Some((1, 2)), None), superfile(Some((86_400, 86_400)), None)];
    let list = commit(storage, &opts, None, &entries).expect("list");
    (opts, list)
}

#[test]
fn a_faster_writer_is_caught_up_with() {
    assert!(is_stale(41, Some(&pointer())));
    assert!(!is_stale(42, Some(&pointer())));
    assert!(!is_stale(0, None));

    let mut storage = Storage { objects: HashMap::new() };
    let (opts, list) = table_of(&mut storage);
    let load = |e: &ManifestListEntry| Arc::new(decode(&storage.objects[&e.uri]).expect("part"));
    let have = vec![load(&list.parts[0])];
    let missing = missing_parts(&list, &have);
    assert_eq!(missing, vec![list.parts[1].part_id]);
    let loaded = finish_part_loads(&missing, vec![Ok(load(&list.parts[1]))]).expect("loaded");
    let parts = vec![Arc::clone(&have[0]), Arc::clone(&loaded[0])];
    let expected = uris(&[
        Arc::clone(&parts[0].superfiles[0]),
        Arc::clone(&parts[1].superfiles[0]),
    ]);
    let m = refreshed_manifest(Arc::new(opts), 7, Arc::new(list), &parts);
    assert_eq!(m.superfile_list.manifest_id, 7);
    assert_eq!(uris(&m.superfile_list.superfiles), expected);
    let id = m.list.as_ref().expect("list").parts[1].part_id;
    assert!(m.part_location(id).is_ok());

    let err = finish_part_loads(&missing, vec![Err(ManifestLoadError::NoLoaderAttached)])
        .expect_err("not loaded");
    assert!(matches!(err, CommitError::Encode(_)));
}

#[test]
fn lists_that_cannot_be_read_are_told_apart() {
    let gone = StorageError::NotFound { uri: "x".to_string() };
    assert!(matches!(finish_list_read(Err(gone)), Err(CommitError::Storage(_))));
    assert!(matches!(
        finish_list_read(Ok(Err("no json".to_string()))),
        Err(CommitError::PointerParse(_))
    ));
}

#[test]
fn what_was_published_can_load_its_parts() {
    let mut storage = Storage { objects: HashMap::new() };
    let (opts, list) = table_of(&mut storage);
    let id = list.parts[0].part_id;
    let uri = list.parts[0].uri.clone();
    let m: Manifest =
        published_manifest(SuperfileList::empty(Arc::new(opts)), Arc::new(list));
    assert_eq!(m.part_location(id).expect("known").uri, uri);
    assert!(m.part(id, Ok(storage.objects[&uri].clone())).is_ok());
}

// ------------------------------------------------------------ uploads

#[test]
fn large_superfiles_are_sent_in_pieces() {
    assert_eq!(put_mode(99, 100), PutMode::Single);
    assert_eq!(put_mode(100, 100), PutMode::Multipart);
    let gone = || Err(StorageError::NotFound { uri: "x".to_string() });
    match start_upload("x", 2 * PART_BYTES + 1, gone()) {
        UploadStart::Send(pieces) => {
            assert_eq!(pieces.len(), 3);
            assert_eq!(
                pieces[2],
                ByteRange { start: 2 * PART_BYTES, end: 2 * PART_BYTES + 1 }
            );
        }
        other => panic!("expected pieces, got {:?}", other),
    }
    assert!(matches!(
        start_upload("x", 1, Ok(())),
        UploadStart::Stop(StorageError::PreconditionFailed { uri }) if uri == "x"
    ));
    assert!(matches!(finish_upload("x", None), UploadEnd::Done));
    assert!(matches!(
        finish_upload("x", Some("broken pipe".to_string())),
        UploadEnd::Abort(StorageError::Permanent { .. })
    ));
}

#[test]
fn the_first_failed_put_fails_all() {
    assert!(finish_segment_puts(vec![Ok(()), Err(lost()), Ok(())]).is_ok());
    let fault = StorageError::Permanent { uri: "x".to_string(), detail: "no".to_string() };
    assert!(matches!(
        finish_segment_puts(vec![Ok(()), Err(fault)]),
        Err(CommitError::Storage(StorageError::Permanent { .. }))
    ));
}

#[test]
fn ranges_meet_without_gaps() {
    let r = chunk_ranges(10, 4);
    assert_eq!(
        r,
        vec![
            ByteRange { start: 0, end: 4 },
            ByteRange { start: 4, end: 8 },
            ByteRange { start: 8, end: 10 },
        ]
    );
    assert!(chunk_ranges(0, 4).is_empty());
    assert_eq!(chunk_ranges(u64::MAX, u64::MAX).len(), 1);
}

// ------------------------------------------------------------ figures

#[test]
fn memory_is_measured_or_zero() {
    assert_eq!(rss_figure(None), 0);
    assert_eq!(rss_figure(Some(7)), 7);
    assert!(process_rss_bytes() > 0);
    let s = SupertableStats::default();
    assert_eq!(s.manifest_id, 0);
    assert_eq!(s.n_manifest_parts, None);
}
