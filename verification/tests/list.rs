use supertable::column_map::ColumnMap;
use supertable::manifest::list::{
    FtsColumnInfo, FtsSummaryAgg, ListParseError, ManifestList, ManifestListEntry,
    PartitionStrategy, ScalarStatsAgg, VectorColumnInfo, VectorSummaryAgg, FORMAT_VERSION,
};
use supertable::manifest::list_dto::{
    decode_hash, encode_hash, list_from_dto, list_to_dto, ManifestListDto, PartitionStrategyDto,
};
use supertable::manifest::part::{ContentHash, PartId};

fn empty_list() -> ManifestList {
    ManifestList {
        format_version: FORMAT_VERSION.to_string(),
        manifest_id: 0,
        options_hash: ContentHash([0u8; 32]),
        schema: Vec::new(),
        id_column: "doc_id".to_string(),
        fts_columns: vec![],
        vector_columns: vec![],
        partition_strategy: PartitionStrategy::Hash {
            column: "doc_id".to_string(),
            n_buckets: 64,
        },
        parts: vec![],
    }
}

fn rich_entry(seed: u8) -> ManifestListEntry {
    let mut scalar = ColumnMap::new();
    scalar.insert(
        "ts".to_string(),
        ScalarStatsAgg {
            min: vec![seed, 0x00, 0x01, 0x02, 0x03, 0x04, 0x05, 0x06],
            max: vec![seed, 0xff, 0xfe, 0xfd, 0xfc, 0xfb, 0xfa, 0xf9],
        },
    );
    let mut fts = ColumnMap::new();
    fts.insert(
        "title".to_string(),
        FtsSummaryAgg {
            term_bloom_union: vec![seed; 64],
            term_bloom_n_blocks: 16,
            n_terms_distinct: 1_048_576,
            term_range_union: Some((b"alpha".to_vec(), b"zulu".to_vec())),
        },
    );
    fts.insert(
        "body".to_string(),
        FtsSummaryAgg {
            term_bloom_union: vec![0u8; 32],
            term_bloom_n_blocks: 8,
            n_terms_distinct: 0,
            term_range_union: None,
        },
    );
    let mut vec_agg = ColumnMap::new();
    vec_agg.insert(
        "emb".to_string(),
        VectorSummaryAgg {
            centroid_envelope: 0.5_f32.to_le_bytes().repeat(8),
            envelope_radius: 0.71_f32.to_bits(),
        },
    );
    ManifestListEntry {
        part_id: PartId(u128::from_be_bytes([seed; 16])),
        uri: format!("manifests/part-{seed:02x}.avro.zst"),
        n_superfiles: 9_847,
        size_bytes_compressed: 10_485_760,
        size_bytes_uncompressed: 26_214_400,
        content_hash: ContentHash([seed; 32]),
        partition_key: vec![seed, 0x00, 0x00, 0x00, 0x00, 0x00, 0x00, 0x00],
        id_range: (0, 245_678_901),
        scalar_stats_agg: scalar,
        fts_summary_agg: fts,
        vector_summary_agg: vec_agg,
    }
}

fn rich_list(n_parts: u8) -> ManifestList {
    let mut list = empty_list();
    list.manifest_id = 42;
    list.options_hash = ContentHash([0xab; 32]);
    list.schema = vec![0x01, 0x02, 0x03, 0xff, 0xfe];
    list.fts_columns = vec![
        FtsColumnInfo { column: "title".to_string() },
        FtsColumnInfo { column: "body".to_string() },
    ];
    list.vector_columns = vec![VectorColumnInfo {
        column: "emb".to_string(),
        dim: 384,
        n_cent: 64,
        rot_seed: 7,
        metric: "cosine".to_string(),
    }];
    list.partition_strategy = PartitionStrategy::TimeRange {
        column: "ts".to_string(),
        granularity_secs: 86_400,
    };
    list.parts = (0..n_parts).map(rich_entry).collect();
    list
}

fn encode(list: &ManifestList) -> ManifestListDto {
    list_to_dto(list)
}

fn decode(dto: &ManifestListDto) -> Result<ManifestList, ListParseError> {
    list_from_dto(dto)
}

fn text<T: std::fmt::Debug>(x: &T) -> String {
    format!("{:?}", x)
}

#[test]
fn empty_list_roundtrip() {
    let list = empty_list();
    let decoded = decode(&encode(&list)).expect("decode");
    assert_eq!(text(&decoded), text(&list));
}

#[test]
fn rich_list_roundtrip_multiple_parts() {
    let list = rich_list(5);
    let decoded = decode(&encode(&list)).expect("decode");
    assert_eq!(decoded.parts.len(), 5);
    assert_eq!(text(&decoded), text(&list));
}

#[test]
fn partition_strategy_time_range_roundtrip() {
    let mut list = empty_list();
    list.partition_strategy = PartitionStrategy::TimeRange {
        column: "event_ts".to_string(),
        granularity_secs: 3600,
    };
    let decoded = decode(&encode(&list)).expect("decode");
    assert_eq!(text(&decoded.partition_strategy), text(&list.partition_strategy));
}

#[test]
fn partition_strategy_hash_roundtrip() {
    let mut list = empty_list();
    list.partition_strategy = PartitionStrategy::Hash {
        column: "user_id".to_string(),
        n_buckets: 1024,
    };
    let decoded = decode(&encode(&list)).expect("decode");
    assert_eq!(text(&decoded.partition_strategy), text(&list.partition_strategy));
}

#[test]
fn partition_strategy_column_range_roundtrip() {
    let mut list = empty_list();
    list.partition_strategy = PartitionStrategy::ColumnRange {
        column: "category".to_string(),
        boundaries: vec![
            vec![0x01, 0x02, 0x03],
            vec![0xff, 0xfe, 0xfd, 0xfc],
            vec![0x00, 0x80, 0xff],
        ],
    };
    let decoded = decode(&encode(&list)).expect("decode");
    assert_eq!(text(&decoded.partition_strategy), text(&list.partition_strategy));
}

#[test]
fn term_ranges_are_there_or_not_as_in_the_list() {
    let dto = encode(&rich_list(1));
    let fts = &dto.parts[0].fts_summary_agg;
    assert!(fts.get("body").expect("body").term_range_union.is_none());
    let range = fts.get("title").expect("title").term_range_union.as_ref().expect("range");
    assert_eq!(range.min, "YWxwaGE=");
    assert_eq!(range.max, "enVsdQ==");
}

#[test]
fn same_logical_content_produces_byte_equal_json() {
    let list_a = rich_list(3);
    let list_b = rich_list(3);
    assert_eq!(text(&encode(&list_a)), text(&encode(&list_b)));
}

#[test]
fn list_incompatible_major_version_rejected() {
    let mut list = empty_list();
    list.format_version = "2.0".to_string();
    let err = decode(&encode(&list)).expect_err("major 2 must reject");
    assert!(
        matches!(err, ListParseError::IncompatibleMajorVersion { .. }),
        "expected IncompatibleMajorVersion, got {err:?}"
    );
}

#[test]
fn list_minor_version_compatible() {
    let mut list = empty_list();
    list.format_version = "1.99".to_string();
    let decoded = decode(&encode(&list)).expect("minor 99 must accept");
    assert_eq!(decoded.format_version, "1.99");
}

#[test]
fn part_reuse_across_versions() {
    let entry = rich_entry(99);

    let mut list_v42 = empty_list();
    list_v42.manifest_id = 42;
    list_v42.parts = vec![entry.clone()];

    let mut list_v43 = empty_list();
    list_v43.manifest_id = 43;
    list_v43.parts = vec![entry.clone()];

    let d_v42 = decode(&encode(&list_v42)).expect("decode v42");
    let d_v43 = decode(&encode(&list_v43)).expect("decode v43");

    assert_eq!(d_v42.parts.len(), 1);
    assert_eq!(d_v43.parts.len(), 1);
    assert_eq!(text(&d_v42.parts[0]), text(&d_v43.parts[0]));
    assert_eq!(text(&d_v42.parts[0]), text(&entry));
    assert_ne!(d_v42.manifest_id, d_v43.manifest_id);
}

#[test]
fn plain_values_have_their_texts() {
    let dto = encode(&rich_list(1));
    assert_eq!(dto.options_hash, format!("blake3:{}", "ab".repeat(32)));
    assert_eq!(dto.schema, "AQID//4=");
    assert_eq!(dto.parts[0].part_id, "00000000-0000-0000-0000-000000000000");
    assert_eq!(dto.parts[0].content_hash, format!("blake3:{}", "00".repeat(32)));
    assert_eq!(dto.parts[0].id_range, ("0".to_string(), "245678901".to_string()));
    assert!(matches!(
        dto.partition_strategy,
        PartitionStrategyDto::TimeRange { granularity_secs: 86_400, .. }
    ));
}

#[test]
fn binary_safe_schema_roundtrip() {
    let mut list = empty_list();
    list.schema = (0u8..=255).collect();
    let decoded = decode(&encode(&list)).expect("decode");
    assert_eq!(decoded.schema, list.schema);
}

#[test]
fn malformed_base64_surfaces_typed_error() {
    let mut dto = encode(&rich_list(1));
    dto.schema = format!("!!!!{}", dto.schema);
    let err = decode(&dto).expect_err("must fail");
    assert!(
        matches!(err, ListParseError::Base64 { .. }),
        "expected Base64 error, got {err:?}"
    );
}

#[test]
fn bad_hashes_ids_and_numbers_are_told_apart() {
    let mut dto = encode(&rich_list(1));
    dto.options_hash = "sha256:00".to_string();
    assert!(matches!(decode(&dto), Err(ListParseError::BadContentHash(_))));

    let mut dto = encode(&rich_list(1));
    dto.parts[0].part_id = "no id".to_string();
    assert!(matches!(decode(&dto), Err(ListParseError::BadPartId(_))));

    let mut dto = encode(&rich_list(1));
    dto.parts[0].id_range.0 = "12x".to_string();
    assert!(matches!(decode(&dto), Err(ListParseError::BadFieldValue(_, _))));
}

#[test]
fn extreme_ids_come_back() {
    let mut list = empty_list();
    let mut entry = rich_entry(1);
    entry.id_range = (i128::MIN, i128::MAX);
    list.parts = vec![entry];
    let decoded = decode(&encode(&list)).expect("decode");
    assert_eq!(decoded.parts[0].id_range, (i128::MIN, i128::MAX));
}

#[test]
fn hashes_come_back_and_other_texts_do_not() {
    let mut h = [0u8; 32];
    for (i, b) in h.iter_mut().enumerate() {
        *b = (i * 7) as u8;
    }
    let text = encode_hash(&ContentHash(h));
    assert_eq!(decode_hash(&text).expect("hash"), ContentHash(h));
    let short = &text[..text.len() - 2];
    let bare = &text["blake3:".len()..];
    let long = format!("{text}00");
    let signed = format!("{}+a", short);
    let beyond = format!("{}0g", short);
    for s in [short, bare, long.as_str(), signed.as_str(), beyond.as_str(), "", "blake3:"] {
        let e = decode_hash(s).expect_err("no hash");
        assert!(matches!(e, ListParseError::BadContentHash(t) if t == s));
    }
}
