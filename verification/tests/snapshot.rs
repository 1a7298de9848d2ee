use std::collections::HashMap;
use std::sync::Arc;

use supertable::column_map::ColumnMap;
use supertable::error::StorageError;
use supertable::manifest::bloom::BloomBuilder;
use supertable::manifest::list::{
    ManifestList, ManifestListEntry, PartitionStrategy, FORMAT_VERSION as LIST_FORMAT_VERSION,
};
use supertable::manifest::part::{encode, ContentHash, ManifestPart, PartId, FORMAT_VERSION};
use supertable::manifest::{
    FtsSummary, Manifest, ManifestLoadError, ManifestPartLoader, ScalarStatsTable,
    SuperfileEntry, SuperfileList, SuperfileUri, VectorSummary,
};
use supertable::options::{Field, FtsConfig, SupertableOptions};
use supertable::scalar::{DataType, Scalar, ScalarValue, TypeKind};

fn schema() -> Vec<Field> {
    vec![Field {
        name: "title".to_string(),
        data_type: DataType { kind: TypeKind::LargeUtf8, name: "LargeUtf8".to_string() },
        nullable: false,
    }]
}

fn opts() -> Arc<SupertableOptions> {
    Arc::new(
        SupertableOptions::new(
            schema(),
            vec![FtsConfig { column: "title".to_string() }],
            vec![],
            true,
        )
        .expect("valid options"),
    )
}

fn seg_entry(uri: SuperfileUri, n_docs: u64) -> Arc<SuperfileEntry> {
    Arc::new(SuperfileEntry {
        superfile_id: uri.0,
        uri,
        n_docs,
        id_min: 0,
        id_max: n_docs.saturating_sub(1) as i128,
        scalar_stats: ScalarStatsTable::new(),
        fts_summary: ColumnMap::new(),
        vector_summary: ColumnMap::new(),
        partition_key: Vec::new(),
        partition_hint: None,
    })
}

#[test]
fn empty_manifest_starts_at_zero() {
    let m = Manifest::empty(opts()).superfile_list;
    assert_eq!(m.manifest_id, 0);
    assert_eq!(m.superfiles.len(), 0);
    assert_eq!(m.n_docs_total(), 0);
}

#[test]
fn with_appended_increments_manifest_id_and_extends_segments() {
    let m0 = Manifest::empty(opts());
    let entry = seg_entry(SuperfileUri::new_v4(), 100);
    let m1 = m0.with_appended(vec![entry.clone()]);
    assert_eq!(m1.superfile_list.manifest_id, 1);
    assert_eq!(m1.superfile_list.superfiles.len(), 1);
    assert_eq!(m1.superfile_list.n_docs_total(), 100);
    assert_eq!(m0.superfile_list.manifest_id, 0);
    assert_eq!(m0.superfile_list.superfiles.len(), 0);
    assert_eq!(m0.superfile_list.n_docs_total(), 0);
}

#[test]
fn with_appended_chains_to_higher_manifest_ids() {
    let m0 = SuperfileList::empty(opts());
    let m1 = m0.with_appended(vec![seg_entry(SuperfileUri::new_v4(), 50)]);
    let m2 = m1.with_appended(vec![seg_entry(SuperfileUri::new_v4(), 75)]);
    assert_eq!(m0.manifest_id, 0);
    assert_eq!(m1.manifest_id, 1);
    assert_eq!(m2.manifest_id, 2);
    assert_eq!(m0.superfiles.len(), 0);
    assert_eq!(m1.superfiles.len(), 1);
    assert_eq!(m2.superfiles.len(), 2);
    assert_eq!(m2.n_docs_total(), 50 + 75);
}

#[test]
fn with_appended_shares_old_segments_via_arc() {
    let entry = seg_entry(SuperfileUri::new_v4(), 1);
    let m0 = Manifest::empty(opts()).with_appended(vec![entry.clone()]);
    let m1 = m0.with_appended(vec![seg_entry(SuperfileUri::new_v4(), 2)]);
    assert!(Arc::ptr_eq(&m0.superfile_list.superfiles[0], &m1.superfile_list.superfiles[0]));
}

#[test]
fn with_appended_empty_input_still_bumps_manifest_id() {
    let m0 = Manifest::empty(opts());
    let m1 = m0.with_appended(vec![]);
    assert_eq!(m1.superfile_list.manifest_id, 1);
    assert_eq!(m1.superfile_list.superfiles.len(), 0);
}

#[test]
fn segment_uri_is_distinct_per_call() {
    let a = SuperfileUri::new_v4();
    let b = SuperfileUri::new_v4();
    assert_ne!(a, b);
    assert_eq!((a.0 >> 76) & 0xf, 4);
    assert_eq!((a.0 >> 62) & 0x3, 2);
}

#[test]
fn scalar_stats_table_default_is_empty() {
    let s = ScalarStatsTable::new();
    assert!(s.cols.is_empty());
}

#[test]
fn scalar_stats_table_can_hold_arrow_array_min_max() {
    let mut s = ScalarStatsTable::new();
    let value = |x: i128| Scalar {
        data_type: DataType { kind: TypeKind::UInt64, name: "UInt64".to_string() },
        value: Some(ScalarValue::Int(x)),
    };
    s.cols.insert("ts".to_string(), (value(1), value(999)));
    assert_eq!(s.cols.len(), 1);
    let (lo, hi) = s.cols.get("ts").expect("inserted");
    assert!(matches!(lo.value, Some(ScalarValue::Int(1))));
    assert!(matches!(hi.value, Some(ScalarValue::Int(999))));
}

#[test]
fn fts_summary_round_trip_fields() {
    let s = FtsSummary {
        term_bloom: BloomBuilder::with_n_blocks(1).finish(),
        n_terms_distinct: 1234,
        term_range: (b"err".to_vec(), b"foo".to_vec()),
    };
    assert_eq!(s.term_bloom.len(), 64);
    assert_eq!(s.n_terms_distinct, 1234);
    assert_eq!(s.term_range.0, b"err".to_vec());
    assert_eq!(s.term_range.1, b"foo".to_vec());
}

#[test]
fn vector_summary_round_trip_fields() {
    let s = VectorSummary {
        centroid: vec![0.1f32.to_bits(), 0.2f32.to_bits(), 0.3f32.to_bits()],
        radius: 0.5f32.to_bits(),
    };
    assert_eq!(s.centroid.len(), 3);
    assert!((f32::from_bits(s.radius) - 0.5).abs() < 1e-9);
}

/// Objects by name, and a count of the reads.
struct CountingStorage {
    objects: HashMap<String, Vec<u8>>,
    gets: usize,
}

impl CountingStorage {
    fn get(&mut self, uri: &str) -> Result<Vec<u8>, StorageError> {
        self.gets += 1;
        match self.objects.get(uri) {
            Some(b) => Ok(b.clone()),
            None => Err(StorageError::NotFound { uri: uri.to_string() }),
        }
    }
}

fn make_test_part(seed: u8) -> ManifestPart {
    ManifestPart {
        format_version: FORMAT_VERSION.to_string(),
        part_id: PartId(u128::from_be_bytes([seed; 16])),
        superfiles: vec![],
    }
}

fn encode_and_index(parts: &[ManifestPart]) -> (CountingStorage, Vec<ManifestListEntry>) {
    let mut objects = HashMap::new();
    let mut entries = Vec::new();
    for p in parts {
        let bytes = encode(p, 3);
        let hash = ContentHash::of(&bytes);
        let uri = format!("manifests/part-{}.avro.zst", hash.to_hex());
        let size = bytes.len() as u64;
        objects.insert(uri.clone(), bytes);
        entries.push(ManifestListEntry {
            part_id: p.part_id,
            uri,
            n_superfiles: p.superfiles.len() as u64,
            size_bytes_compressed: size,
            size_bytes_uncompressed: size,
            content_hash: hash,
            partition_key: Vec::new(),
            id_range: (0, 0),
            scalar_stats_agg: ColumnMap::new(),
            fts_summary_agg: ColumnMap::new(),
            vector_summary_agg: ColumnMap::new(),
        });
    }
    (CountingStorage { objects, gets: 0 }, entries)
}

fn fresh_list(entries: Vec<ManifestListEntry>) -> ManifestList {
    ManifestList {
        format_version: LIST_FORMAT_VERSION.to_string(),
        manifest_id: 1,
        options_hash: ContentHash([0u8; 32]),
        schema: Vec::new(),
        id_column: "doc_id".to_string(),
        fts_columns: vec![],
        vector_columns: vec![],
        partition_strategy: PartitionStrategy::Hash {
            column: "doc_id".to_string(),
            n_buckets: 64,
        },
        parts: entries,
    }
}

fn manifest_with_loader(list: ManifestList) -> Manifest {
    let loader = ManifestPartLoader::new(&list);
    Manifest {
        superfile_list: SuperfileList::empty(opts()),
        list: Some(Arc::new(list)),
        loader: Some(Arc::new(loader)),
    }
}

/// Load a part: nothing is read before the list is known to name it.
fn load(
    m: &Manifest,
    storage: &mut CountingStorage,
    part_id: PartId,
) -> Result<ManifestPart, ManifestLoadError> {
    let location = m.part_location(part_id)?;
    let fetched = storage.get(&location.uri);
    m.part(part_id, fetched)
}

#[test]
fn part_first_touch_loads_and_caches() {
    let part = make_test_part(7);
    let id = part.part_id;
    let (mut storage, entries) = encode_and_index(&[part]);
    let manifest = manifest_with_loader(fresh_list(entries));
    let loaded = load(&manifest, &mut storage, id).expect("load");
    assert_eq!(loaded.part_id, id);
    assert_eq!(storage.gets, 1, "exactly one read");
}

#[test]
fn content_hash_mismatch_surfaces_typed_error_without_refetch() {
    let part = make_test_part(17);
    let id = part.part_id;
    let (mut storage, entries) = encode_and_index(&[part]);
    let uri = entries[0].uri.clone();
    let mut tampered = storage.objects[&uri].clone();
    let last = tampered.len() - 1;
    tampered[last] ^= 0xff;
    storage.objects.insert(uri, tampered);
    let manifest = manifest_with_loader(fresh_list(entries));

    let err = load(&manifest, &mut storage, id).expect_err("must reject tampered bytes");
    assert!(
        matches!(err, ManifestLoadError::ContentHashMismatch { .. }),
        "expected ContentHashMismatch, got {err:?}"
    );
    assert_eq!(storage.gets, 1);
    let err2 = load(&manifest, &mut storage, id).expect_err("must reject on retry too");
    assert!(matches!(err2, ManifestLoadError::ContentHashMismatch { .. }));
}

#[test]
fn part_id_not_in_list_surfaces_typed_error() {
    let (mut storage, entries) = encode_and_index(&[make_test_part(19)]);
    let manifest = manifest_with_loader(fresh_list(entries));
    let stranger = PartId(u128::from_be_bytes([0xff; 16]));
    let err = load(&manifest, &mut storage, stranger).expect_err("must reject");
    assert!(
        matches!(err, ManifestLoadError::PartNotInList { .. }),
        "expected PartNotInList, got {err:?}"
    );
    assert_eq!(storage.gets, 0, "nothing is read for an unknown part");
}

#[test]
fn no_loader_attached_surfaces_typed_error() {
    let manifest = Manifest::empty(opts());
    let err = manifest.part(PartId(0), Ok(Vec::new())).expect_err("must error");
    assert!(
        matches!(err, ManifestLoadError::NoLoaderAttached),
        "expected NoLoaderAttached, got {err:?}"
    );
    assert_eq!(err.message(), "no storage / loader attached to this manifest");
}

#[test]
fn storage_and_parse_failures_of_a_part_are_told_apart() {
    let part = make_test_part(23);
    let id = part.part_id;
    let (mut storage, entries) = encode_and_index(&[part]);
    storage.objects.clear();
    let manifest = manifest_with_loader(fresh_list(entries));
    let err = load(&manifest, &mut storage, id).expect_err("gone");
    assert!(matches!(err, ManifestLoadError::Storage(StorageError::NotFound { .. })));

    let junk = b"junk".to_vec();
    let mut entry = manifest.list.as_ref().expect("list").parts[0].clone();
    entry.content_hash = ContentHash::of(&junk);
    let manifest = manifest_with_loader(fresh_list(vec![entry]));
    let err = manifest.part(id, Ok(junk)).expect_err("no part");
    assert!(matches!(err, ManifestLoadError::Parse(_)));
}
