use std::sync::Arc;

use bytes::Bytes;
use supertable::column_map::ColumnMap;
use supertable::manifest::avro::Datum;
use supertable::manifest::bloom::BloomBuilder;
use supertable::manifest::part::{
    decode, encode, parse_part, ContentHash, ManifestPart, PartId, PartParseError, FORMAT_VERSION,
};
use supertable::manifest::{
    FtsSummary, ScalarStatsTable, SuperfileEntry, SuperfileUri, VectorSummary,
};
use supertable::scalar::{DataType, Scalar, ScalarValue, TypeKind};

fn fresh_segment(n_docs: u64) -> Arc<SuperfileEntry> {
    let uri = SuperfileUri::new_v4();
    Arc::new(SuperfileEntry {
        superfile_id: uri.0,
        uri,
        n_docs,
        id_min: 0,
        id_max: n_docs.saturating_sub(1) as i128,
        scalar_stats: ScalarStatsTable::new(),
        fts_summary: ColumnMap::new(),
        vector_summary: ColumnMap::new(),
        partition_key: Vec::new(),
        partition_hint: None,
    })
}

fn fresh_part(superfiles: Vec<Arc<SuperfileEntry>>) -> ManifestPart {
    ManifestPart {
        format_version: FORMAT_VERSION.to_string(),
        part_id: PartId::new_v4(),
        superfiles,
    }
}

fn make_fts_summary(seed: u8, n_terms: u32, range: (Vec<u8>, Vec<u8>)) -> FtsSummary {
    let mut builder = BloomBuilder::with_n_blocks(16);
    for i in 0..n_terms {
        let key = format!("term_{}_{i}", seed);
        builder.insert(key.as_bytes());
    }
    FtsSummary { term_bloom: builder.finish(), n_terms_distinct: n_terms, term_range: range }
}

fn make_vector_summary(dim: usize, seed: f32) -> VectorSummary {
    let centroid: Vec<u32> = (0..dim).map(|i| (seed + i as f32 * 0.001).to_bits()).collect();
    VectorSummary { centroid, radius: (seed * 1.7).to_bits() }
}

fn scalar(kind: TypeKind, name: &str, value: ScalarValue) -> Scalar {
    Scalar { data_type: DataType { kind, name: name.to_string() }, value: Some(value) }
}

fn make_scalar_stats() -> ScalarStatsTable {
    let mut cols = ColumnMap::new();
    let ts = |x: i128| scalar(TypeKind::Int64, "Int64", ScalarValue::Int(x));
    let score = |x: f64| scalar(TypeKind::Float64, "Float64", ScalarValue::Float(x.to_bits()));
    let active = |x: bool| scalar(TypeKind::Boolean, "Boolean", ScalarValue::Bool(x));
    let category =
        |x: &str| scalar(TypeKind::Utf8, "Utf8", ScalarValue::Text(x.to_string()));
    cols.insert("ts".to_string(), (ts(1_715_000_000), ts(1_715_086_400)));
    cols.insert("score".to_string(), (score(0.0), score(0.999_999)));
    cols.insert("active".to_string(), (active(false), active(true)));
    cols.insert("category".to_string(), (category("alpha"), category("zulu")));
    ScalarStatsTable { cols }
}

fn make_rich_segment() -> Arc<SuperfileEntry> {
    let uri = SuperfileUri::new_v4();
    let mut fts_summary = ColumnMap::new();
    fts_summary.insert(
        "title".to_string(),
        make_fts_summary(1, 50, (b"alpha".to_vec(), b"zulu".to_vec())),
    );
    fts_summary.insert(
        "body".to_string(),
        make_fts_summary(2, 30, (b"".to_vec(), b"\xff\xff".to_vec())),
    );
    let mut vector_summary = ColumnMap::new();
    vector_summary.insert("emb".to_string(), make_vector_summary(8, 0.5));
    vector_summary.insert("img".to_string(), make_vector_summary(16, 1.25));
    Arc::new(SuperfileEntry {
        superfile_id: uri.0,
        uri,
        n_docs: 12_345,
        id_min: 1_000,
        id_max: 13_344,
        scalar_stats: make_scalar_stats(),
        fts_summary,
        vector_summary,
        partition_key: vec![0x42, 0x00, 0x00, 0x00, 0x00, 0x00, 0x00, 0x00],
        partition_hint: Some(13),
    })
}

fn assert_segments_equal(a: &SuperfileEntry, b: &SuperfileEntry) {
    assert_eq!(a.superfile_id, b.superfile_id, "superfile_id");
    assert_eq!(a.uri, b.uri, "uri");
    assert_eq!(a.n_docs, b.n_docs, "n_docs");
    assert_eq!(a.id_min, b.id_min, "id_min");
    assert_eq!(a.id_max, b.id_max, "id_max");
    assert_eq!(a.partition_key, b.partition_key, "partition_key");
    assert_eq!(a.partition_hint, b.partition_hint, "partition_hint");

    assert_eq!(a.scalar_stats.cols.len(), b.scalar_stats.cols.len(), "scalar_stats column count");
    for i in 0..a.scalar_stats.cols.len() {
        let k = a.scalar_stats.cols.key_at(i);
        let (a_min, a_max) = a.scalar_stats.cols.value_at(i);
        let (b_min, b_max) = b.scalar_stats.cols.get(k).expect("missing scalar col");
        assert_eq!(format!("{:?}", a_min), format!("{:?}", b_min), "scalar {k} min");
        assert_eq!(format!("{:?}", a_max), format!("{:?}", b_max), "scalar {k} max");
    }

    assert_eq!(a.fts_summary.len(), b.fts_summary.len(), "fts col count");
    for i in 0..a.fts_summary.len() {
        let k = a.fts_summary.key_at(i);
        let av = a.fts_summary.value_at(i);
        let bv = b.fts_summary.get(k).expect("missing fts col");
        assert_eq!(av.n_terms_distinct, bv.n_terms_distinct, "fts {k} n_terms_distinct");
        assert_eq!(av.term_range, bv.term_range, "fts {k} term_range");
        assert_eq!(av.term_bloom.to_bytes(), bv.term_bloom.to_bytes(), "fts {k} bloom bytes");
    }

    assert_eq!(a.vector_summary.len(), b.vector_summary.len(), "vec count");
    for i in 0..a.vector_summary.len() {
        let k = a.vector_summary.key_at(i);
        let av = a.vector_summary.value_at(i);
        let bv = b.vector_summary.get(k).expect("missing vec col");
        assert_eq!(av.radius, bv.radius, "vec {k} radius bits");
        assert_eq!(av.centroid, bv.centroid, "vec {k} centroid bits");
    }
}

#[test]
fn empty_part_roundtrip() {
    let part = fresh_part(vec![]);
    let bytes = encode(&part, 3);
    let decoded = decode(&bytes).expect("decode empty");
    assert_eq!(decoded.format_version, FORMAT_VERSION);
    assert_eq!(decoded.part_id, part.part_id);
    assert_eq!(decoded.superfiles.len(), 0);
}

#[test]
fn single_minimal_segment_roundtrip() {
    let part = fresh_part(vec![fresh_segment(100)]);
    let bytes = encode(&part, 3);
    let decoded = decode(&bytes).expect("decode minimal");
    assert_eq!(decoded.superfiles.len(), 1);
    assert_segments_equal(&decoded.superfiles[0], &part.superfiles[0]);
}

#[test]
fn multi_segment_with_full_summaries_roundtrip() {
    let superfiles: Vec<Arc<SuperfileEntry>> = (0..5).map(|_| make_rich_segment()).collect();
    let part = fresh_part(superfiles);
    let bytes = encode(&part, 3);
    let decoded = decode(&bytes).expect("decode rich");
    assert_eq!(decoded.superfiles.len(), 5);
    for (a, b) in decoded.superfiles.iter().zip(part.superfiles.iter()) {
        assert_segments_equal(a, b);
    }
}

#[test]
fn content_hash_covers_all_bytes() {
    let part = fresh_part(vec![make_rich_segment()]);
    let bytes = encode(&part, 3);
    let hash = ContentHash::of(&bytes);
    let mut tampered = bytes.clone();
    let mid = tampered.len() / 2;
    tampered[mid] ^= 0xff;
    let tampered_hash = ContentHash::of(&tampered);
    assert_ne!(hash, tampered_hash, "blake3 must change when any byte changes");
}

#[test]
fn same_logical_content_produces_same_bytes_and_hash() {
    let superfiles = vec![make_rich_segment(), make_rich_segment()];
    let part_a = ManifestPart {
        format_version: FORMAT_VERSION.to_string(),
        part_id: PartId(0),
        superfiles: superfiles.clone(),
    };
    let part_b = ManifestPart {
        format_version: FORMAT_VERSION.to_string(),
        part_id: PartId(0),
        superfiles,
    };
    let bytes_a = encode(&part_a, 3);
    let bytes_b = encode(&part_b, 3);
    assert_eq!(bytes_a, bytes_b, "same logical content, same bytes");
    assert_eq!(
        ContentHash::of(&bytes_a),
        ContentHash::of(&bytes_b),
        "same logical content, same content_hash"
    );
}

fn hinted(partition_key: Vec<u8>, partition_hint: Option<u32>) -> Arc<SuperfileEntry> {
    let uri = SuperfileUri::new_v4();
    Arc::new(SuperfileEntry {
        superfile_id: uri.0,
        uri,
        n_docs: 1,
        id_min: 0,
        id_max: 0,
        scalar_stats: ScalarStatsTable::new(),
        fts_summary: ColumnMap::new(),
        vector_summary: ColumnMap::new(),
        partition_key,
        partition_hint,
    })
}

#[test]
fn partition_hint_some_and_none_both_roundtrip() {
    let part = fresh_part(vec![
        hinted(vec![0xab, 0xcd], Some(0xdead_beef)),
        hinted(Vec::new(), None),
    ]);
    let bytes = encode(&part, 3);
    let decoded = decode(&bytes).expect("decode mixed-hint");
    assert_eq!(decoded.superfiles.len(), 2);
    assert_eq!(decoded.superfiles[0].partition_hint, Some(0xdead_beef));
    assert_eq!(decoded.superfiles[0].partition_key, vec![0xab, 0xcd]);
    assert_eq!(decoded.superfiles[1].partition_hint, None);
    assert_eq!(decoded.superfiles[1].partition_key, Vec::<u8>::new());
}

#[test]
fn part_incompatible_major_version_rejected() {
    let mut part = fresh_part(vec![fresh_segment(1)]);
    part.format_version = "2.0".to_string();
    let bytes = encode(&part, 3);
    let err = decode(&bytes).expect_err("major 2 must reject");
    assert!(
        matches!(err, PartParseError::IncompatibleMajorVersion { .. }),
        "expected IncompatibleMajorVersion, got {err:?}"
    );
}

#[test]
fn part_minor_version_compatible() {
    let mut part = fresh_part(vec![fresh_segment(7)]);
    part.format_version = "1.99".to_string();
    let bytes = encode(&part, 3);
    let decoded = decode(&bytes).expect("minor 99 must accept");
    assert_eq!(decoded.format_version, "1.99");
    assert_eq!(decoded.superfiles.len(), 1);
}

#[test]
fn zstd_corruption_surfaces_typed_error() {
    let part = fresh_part(vec![fresh_segment(1)]);
    let mut bytes = encode(&part, 3);
    bytes[0] ^= 0xff;
    bytes[1] ^= 0xff;
    let err = decode(&bytes).expect_err("corrupt zstd must fail");
    assert!(
        matches!(err, PartParseError::Zstd(_) | PartParseError::Avro(_)),
        "expected Zstd or Avro error, got {err:?}"
    );
}

#[test]
fn bytes_payload_is_well_formed_use_via_bytes_type() {
    let part = fresh_part(vec![make_rich_segment()]);
    let raw = encode(&part, 3);
    let wrapped = Bytes::from(raw.clone());
    let decoded = decode(&wrapped).expect("decode from Bytes");
    assert_eq!(decoded.superfiles.len(), 1);
}

#[test]
fn bytes_that_are_no_avro_are_refused() {
    let bytes = zstd::stream::encode_all(&b"\xff\xff\xff"[..], 3).expect("compress");
    assert!(matches!(decode(&bytes), Err(PartParseError::Avro(_))));
}

#[test]
fn negative_and_large_ids_come_back() {
    let uri = SuperfileUri::new_v4();
    let entry = SuperfileEntry {
        superfile_id: uri.0,
        uri,
        n_docs: 2,
        id_min: -5,
        id_max: i128::MAX,
        scalar_stats: ScalarStatsTable::new(),
        fts_summary: ColumnMap::new(),
        vector_summary: ColumnMap::new(),
        partition_key: Vec::new(),
        partition_hint: None,
    };
    let part = fresh_part(vec![Arc::new(entry)]);
    let back = decode(&encode(&part, 3)).expect("decode");
    assert_eq!(back.superfiles[0].id_min, -5);
    assert_eq!(back.superfiles[0].id_max, i128::MAX);
}

#[test]
fn hashes_have_their_text() {
    let h = ContentHash::of(b"abc");
    assert_eq!(
        h.to_hex(),
        "6437b3ac38465133ffb63b75273a8db548c558465d79db03fd359c6cd5bd9d85"
    );
    assert_eq!(h.to_text(), format!("blake3:{}", h.to_hex()));
    assert_eq!(PartId(0x1234).to_text(), "00000000-0000-0000-0000-000000001234");
}

// ------------------------------------------------------------ trees

const ID: &str = "00000000-0000-4000-8000-000000000001";

fn text(s: &str) -> Datum {
    Datum::Text(s.to_string())
}

fn record(fields: Vec<(&str, Datum)>) -> Datum {
    Datum::Record(fields.into_iter().map(|(n, d)| (n.to_string(), d)).collect())
}

fn part_tree(version: &str, id: &str, superfiles: Datum) -> Datum {
    record(vec![
        ("format_version", text(version)),
        ("part_id", text(id)),
        ("superfiles", superfiles),
    ])
}

fn superfile_tree(n_docs: Datum) -> Datum {
    record(vec![
        ("superfile_id", text(ID)),
        ("uri", text(ID)),
        ("n_docs", n_docs),
        ("id_min", Datum::Fixed(16, 5i128.to_be_bytes().to_vec())),
        ("id_max", Datum::Fixed(16, 9i128.to_be_bytes().to_vec())),
        ("partition_key", Datum::Bytes(vec![7])),
        ("partition_hint", Datum::Union(1, Box::new(Datum::Int(3)))),
        ("scalar_stats", Datum::Bytes(Vec::new())),
        ("fts_summary", Datum::Bytes(Vec::new())),
        ("vector_summary", Datum::Bytes(Vec::new())),
    ])
}

#[test]
fn a_tree_is_read_field_by_field() {
    let rows = Datum::Array(vec![superfile_tree(Datum::Long(5))]);
    let part = parse_part(&part_tree(FORMAT_VERSION, ID, rows)).expect("part");
    assert_eq!(part.format_version, FORMAT_VERSION);
    assert_eq!(part.part_id, PartId(0x0000000000004000_8000000000000001));
    assert_eq!(part.superfiles.len(), 1);
    let s = &part.superfiles[0];
    assert_eq!(s.uri.0, part.part_id.0);
    assert_eq!((s.n_docs, s.id_min, s.id_max), (5, 5, 9));
    assert_eq!(s.partition_key, vec![7]);
    assert_eq!(s.partition_hint, Some(3));
}

#[test]
fn a_tree_of_another_shape_is_refused() {
    let none = || Datum::Array(Vec::new());
    assert!(matches!(parse_part(&Datum::Null), Err(PartParseError::SchemaMismatch(_))));
    assert!(matches!(
        parse_part(&record(vec![("part_id", text(ID))])),
        Err(PartParseError::MissingField("format_version"))
    ));
    assert!(matches!(
        parse_part(&part_tree("2.0", ID, none())),
        Err(PartParseError::IncompatibleMajorVersion { got, .. }) if got == "2.0"
    ));
    assert!(matches!(
        parse_part(&part_tree(FORMAT_VERSION, "no id", none())),
        Err(PartParseError::BadSuperfileId(_))
    ));
    assert!(matches!(
        parse_part(&part_tree(FORMAT_VERSION, ID, Datum::Null)),
        Err(PartParseError::WrongFieldType("superfiles"))
    ));
    let rows = Datum::Array(vec![Datum::Other]);
    assert!(matches!(
        parse_part(&part_tree(FORMAT_VERSION, ID, rows)),
        Err(PartParseError::SchemaMismatch(_))
    ));
    let rows = Datum::Array(vec![superfile_tree(text("five"))]);
    assert!(matches!(
        parse_part(&part_tree(FORMAT_VERSION, ID, rows)),
        Err(PartParseError::WrongFieldType("n_docs"))
    ));
}
