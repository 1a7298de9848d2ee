use std::sync::Arc;

use arrow::array::{Array, Decimal128Array, Int64Array, LargeStringArray, StringArray};
use arrow::ipc::reader::StreamReader;
use supertable::column_map::ColumnMap;
use supertable::manifest::aggregates::{compute, scalar_stats_agg};
use supertable::manifest::bloom::BloomBuilder;
use supertable::manifest::list::{
    FtsSummaryAgg, ManifestList, ManifestListEntry, PartitionStrategy, VectorSummaryAgg,
    FORMAT_VERSION,
};
use supertable::manifest::list_prune::{
    decode_centroid_envelope, prefix_overlaps_range, prefix_upper_bound,
    prune_parts_for_fts_prefix, prune_parts_for_fts_terms, prune_parts_for_id_range,
    prune_parts_for_vector, vector_check, BoolMode, VectorCheck,
};
use supertable::manifest::part::{ContentHash, PartId};
use supertable::manifest::spheres::vector_groups;
use supertable::manifest::{
    FtsSummary, ScalarStatsTable, SuperfileEntry, SuperfileUri, VectorSummary,
};
use supertable::scalar::{DataType, Scalar, ScalarValue, TypeKind};

fn bits(v: &[f32]) -> Vec<u32> {
    v.iter().map(|x| x.to_bits()).collect()
}

fn seg(
    id_min: i128,
    id_max: i128,
    title_terms: &[&str],
    vec_centroid: Option<Vec<f32>>,
    vec_radius: f32,
) -> Arc<SuperfileEntry> {
    let mut fts_summary = ColumnMap::new();
    if !title_terms.is_empty() {
        let mut bloom = BloomBuilder::with_n_blocks(16);
        for t in title_terms {
            bloom.insert(t.as_bytes());
        }
        let mut sorted: Vec<Vec<u8>> = title_terms.iter().map(|t| t.as_bytes().to_vec()).collect();
        sorted.sort();
        fts_summary.insert(
            "title".to_string(),
            FtsSummary {
                term_bloom: bloom.finish(),
                n_terms_distinct: title_terms.len() as u32,
                term_range: (
                    sorted.first().cloned().unwrap_or_default(),
                    sorted.last().cloned().unwrap_or_default(),
                ),
            },
        );
    }
    let mut vector_summary = ColumnMap::new();
    if let Some(c) = vec_centroid {
        vector_summary.insert(
            "emb".to_string(),
            VectorSummary { centroid: bits(&c), radius: vec_radius.to_bits() },
        );
    }
    let uri = SuperfileUri::new_v4();
    Arc::new(SuperfileEntry {
        superfile_id: uri.0,
        uri,
        n_docs: ((id_max - id_min) + 1) as u64,
        id_min,
        id_max,
        scalar_stats: ScalarStatsTable::new(),
        fts_summary,
        vector_summary,
        partition_key: Vec::new(),
        partition_hint: None,
    })
}

fn seg_with_stats(
    id_min: i128,
    id_max: i128,
    column: &str,
    min: Scalar,
    max: Scalar,
) -> Arc<SuperfileEntry> {
    let mut cols = ColumnMap::new();
    cols.insert(column.to_string(), (min, max));
    let uri = SuperfileUri::new_v4();
    Arc::new(SuperfileEntry {
        superfile_id: uri.0,
        uri,
        n_docs: 1,
        id_min,
        id_max,
        scalar_stats: ScalarStatsTable { cols },
        fts_summary: ColumnMap::new(),
        vector_summary: ColumnMap::new(),
        partition_key: Vec::new(),
        partition_hint: None,
    })
}

fn scalar(kind: TypeKind, name: &str, value: ScalarValue) -> Scalar {
    Scalar { data_type: DataType { kind, name: name.to_string() }, value: Some(value) }
}

/// The sphere around spheres: the mean of the centres, and the largest distance
/// to a far side.
fn vector_aggs(superfiles: &[Arc<SuperfileEntry>]) -> ColumnMap<VectorSummaryAgg> {
    let mut out = ColumnMap::new();
    for g in vector_groups(superfiles) {
        let dim = g.spheres[0].centroid.len();
        let mut mean = vec![0.0f64; dim];
        for s in &g.spheres {
            for (i, v) in s.centroid.iter().enumerate() {
                mean[i] += f32::from_bits(*v) as f64;
            }
        }
        let n = g.spheres.len() as f64;
        let centre: Vec<f32> = mean.into_iter().map(|x| (x / n) as f32).collect();
        let mut radius = 0.0f32;
        for s in &g.spheres {
            let d: f32 = s
                .centroid
                .iter()
                .zip(centre.iter())
                .map(|(a, b)| (f32::from_bits(*a) - b) * (f32::from_bits(*a) - b))
                .sum::<f32>()
                .sqrt();
            radius = radius.max(d + f32::from_bits(s.radius));
        }
        out.insert(
            g.column,
            VectorSummaryAgg {
                centroid_envelope: centre.iter().flat_map(|v| v.to_le_bytes()).collect(),
                envelope_radius: radius.to_bits(),
            },
        );
    }
    out
}

fn entry_from_segments(superfiles: &[Arc<SuperfileEntry>], seed: u8) -> ManifestListEntry {
    let aggs = compute(superfiles, vector_aggs(superfiles));
    ManifestListEntry {
        part_id: PartId(u128::from_be_bytes([seed; 16])),
        uri: format!("manifests/part-{seed:02x}.avro.zst"),
        n_superfiles: superfiles.len() as u64,
        size_bytes_compressed: 1024,
        size_bytes_uncompressed: 4096,
        content_hash: ContentHash([seed; 32]),
        partition_key: Vec::new(),
        id_range: aggs.id_range,
        scalar_stats_agg: aggs.scalar_stats_agg,
        fts_summary_agg: aggs.fts_summary_agg,
        vector_summary_agg: aggs.vector_summary_agg,
    }
}

fn list_with(entries: Vec<ManifestListEntry>) -> ManifestList {
    ManifestList {
        format_version: FORMAT_VERSION.to_string(),
        manifest_id: 1,
        options_hash: ContentHash([0u8; 32]),
        schema: Vec::new(),
        id_column: "_id".to_string(),
        fts_columns: vec![],
        vector_columns: vec![],
        partition_strategy: PartitionStrategy::Hash { column: "_id".to_string(), n_buckets: 64 },
        parts: entries,
    }
}

/// Which parts lie within the cutoff of the query, where that is to be measured.
fn prune_vector(list: &ManifestList, column: &str, query: &[f32], cutoff: f32) -> Vec<PartId> {
    let near: Vec<bool> = list
        .parts
        .iter()
        .map(|p| match vector_check(p, column, query.len()) {
            VectorCheck::Keep => true,
            VectorCheck::Measure { centre, radius } => {
                let d: f32 = centre
                    .iter()
                    .zip(query.iter())
                    .map(|(a, b)| (f32::from_bits(*a) - b) * (f32::from_bits(*a) - b))
                    .sum::<f32>()
                    .sqrt();
                d <= f32::from_bits(radius) + cutoff
            }
        })
        .collect();
    prune_parts_for_vector(list, column, query.len(), &near)
}

fn decode_ipc_string(bytes: &[u8]) -> String {
    let mut reader = StreamReader::try_new(bytes, None).expect("ipc reader");
    let batch = reader.next().expect("at least one batch").expect("ok");
    let col = batch.column(0);
    if let Some(a) = col.as_any().downcast_ref::<StringArray>() {
        return a.value(0).to_string();
    }
    if let Some(a) = col.as_any().downcast_ref::<LargeStringArray>() {
        return a.value(0).to_string();
    }
    panic!("expected Utf8 or LargeUtf8 column; got {:?}", col.data_type());
}

fn text_seg(col: &str, min: &str, max: &str, large: bool) -> Arc<SuperfileEntry> {
    let (kind, name) = if large {
        (TypeKind::LargeUtf8, "LargeUtf8")
    } else {
        (TypeKind::Utf8, "Utf8")
    };
    seg_with_stats(
        0,
        0,
        col,
        scalar(kind, name, ScalarValue::Text(min.to_string())),
        scalar(kind, name, ScalarValue::Text(max.to_string())),
    )
}

#[test]
fn prefix_upper_bound_basic() {
    assert_eq!(prefix_upper_bound(b"abc"), Some(b"abd".to_vec()));
    assert_eq!(prefix_upper_bound(b"ab\xff"), Some(b"ac".to_vec()));
    assert_eq!(prefix_upper_bound(b"\xff\xff"), None);
    assert_eq!(prefix_upper_bound(b""), None);
}

#[test]
fn aggregates_compute_empty_returns_default() {
    let aggs = compute(&[], ColumnMap::new());
    assert_eq!(aggs.id_range, (0, 0));
    assert!(aggs.scalar_stats_agg.is_empty());
    assert!(aggs.fts_summary_agg.is_empty());
    assert!(aggs.vector_summary_agg.is_empty());
}

#[test]
fn aggregates_compute_id_range_is_min_max_across_segments() {
    let s_a = seg(100, 199, &["alpha"], None, 0.0);
    let s_b = seg(0, 99, &["beta"], None, 0.0);
    let s_c = seg(500, 599, &["gamma"], None, 0.0);
    let aggs = compute(&[s_a, s_b, s_c], ColumnMap::new());
    assert_eq!(aggs.id_range, (0, 599));
}

fn empty_terms(id_min: i128, id_max: i128, n_docs: u64) -> Arc<SuperfileEntry> {
    let mut fts_summary = ColumnMap::new();
    fts_summary.insert(
        "title".to_string(),
        FtsSummary {
            term_bloom: BloomBuilder::with_n_blocks(16).finish(),
            n_terms_distinct: 0,
            term_range: (Vec::new(), Vec::new()),
        },
    );
    let uri = SuperfileUri::new_v4();
    Arc::new(SuperfileEntry {
        superfile_id: uri.0,
        uri,
        n_docs,
        id_min,
        id_max,
        scalar_stats: ScalarStatsTable::new(),
        fts_summary,
        vector_summary: ColumnMap::new(),
        partition_key: Vec::new(),
        partition_hint: None,
    })
}

#[test]
fn aggregates_compute_fts_term_range_union() {
    let s_a = seg(0, 10, &["alpha", "bravo", "charlie"], None, 0.0);
    let s_b = seg(11, 20, &["bravo", "charlie", "delta"], None, 0.0);
    let s_c = empty_terms(21, 25, 5);
    let aggs = compute(&[s_a, s_b, s_c], ColumnMap::new());
    let fts_agg = aggs.fts_summary_agg.get("title").expect("title agg");
    let (mn, mx) = fts_agg.term_range_union.as_ref().expect("range");
    assert_eq!(mn, b"alpha");
    assert_eq!(mx, b"delta");
}

#[test]
fn aggregates_compute_fts_all_empty_yields_none_range() {
    let aggs = compute(&[empty_terms(0, 0, 0)], ColumnMap::new());
    assert!(
        aggs.fts_summary_agg.get("title").is_none()
            || aggs.fts_summary_agg.get("title").expect("agg").term_range_union.is_none()
    );
}

#[test]
fn aggregates_compute_vector_envelope_bounds_all_segment_balls() {
    let s_a = seg(0, 10, &[], Some(vec![1.0, 0.0, 0.0]), 0.5);
    let s_b = seg(11, 20, &[], Some(vec![0.0, 1.0, 0.0]), 0.5);
    let all = [s_a, s_b];
    let aggs = compute(&all, vector_aggs(&all));
    let v = aggs.vector_summary_agg.get("emb").expect("vec agg");
    let mean = [0.5, 0.5, 0.0];
    let radius = f32::from_bits(v.envelope_radius);
    assert!(radius >= 1.207 - 0.01, "envelope radius must dominate each seg ball; got {}", radius);
    let decoded: Vec<f32> = v
        .centroid_envelope
        .chunks_exact(4)
        .map(|c| f32::from_le_bytes([c[0], c[1], c[2], c[3]]))
        .collect();
    assert_eq!(decoded.len(), 3);
    for (i, x) in decoded.iter().enumerate() {
        assert!((x - mean[i]).abs() < 1e-5, "envelope[{}]={} expected {}", i, x, mean[i]);
    }
}

#[test]
fn aggregates_compute_scalar_min_max_per_column() {
    let ts = |x: i128| scalar(TypeKind::Int64, "Int64", ScalarValue::Int(x));
    let segs = vec![
        seg_with_stats(0, 0, "ts", ts(100), ts(200)),
        seg_with_stats(1, 1, "ts", ts(50), ts(150)),
        seg_with_stats(2, 2, "ts", ts(300), ts(400)),
    ];
    let aggs = compute(&segs, ColumnMap::new());
    let s = aggs.scalar_stats_agg.get("ts").expect("ts scalar agg present");
    assert!(!s.min.is_empty());
    assert!(!s.max.is_empty());
    for (bytes, expected) in [(&s.min, 50i64), (&s.max, 400i64)] {
        let mut reader = StreamReader::try_new(bytes.as_slice(), None).expect("ipc reader");
        let batch = reader.next().expect("at least one batch").expect("ok");
        assert_eq!(batch.num_rows(), 1);
        assert_eq!(batch.schema().field(0).name(), "ts");
        let a = batch.column(0).as_any().downcast_ref::<Int64Array>().expect("int64");
        assert_eq!(a.value(0), expected);
        assert!(reader.next().is_none());
    }
}

#[test]
fn aggregates_compute_id_range_for_uint64_column_via_stats_table() {
    let id = |x: i128| {
        scalar(
            TypeKind::Decimal128 { precision: 38, scale: 0 },
            "Decimal128(38, 0)",
            ScalarValue::Int(x),
        )
    };
    let segs = vec![
        seg_with_stats(0, 99, "_id", id(0), id(99)),
        seg_with_stats(100, 199, "_id", id(100), id(199)),
        seg_with_stats(200, 299, "_id", id(200), id(299)),
    ];
    let aggs = compute(&segs, ColumnMap::new());
    assert_eq!(aggs.id_range, (0, 299));
    assert!(aggs.scalar_stats_agg.contains_key("_id"));
    let max = &aggs.scalar_stats_agg.get("_id").expect("agg").max;
    let mut reader = StreamReader::try_new(max.as_slice(), None).expect("ipc reader");
    let batch = reader.next().expect("at least one batch").expect("ok");
    let a = batch.column(0).as_any().downcast_ref::<Decimal128Array>().expect("decimal");
    assert_eq!(a.value(0), 299);
}

#[test]
fn scalar_stats_agg_unions_utf8_min_max_across_segments() {
    let segs = vec![
        text_seg("title", "alpha", "delta", false),
        text_seg("title", "bravo", "echo", false),
    ];
    let aggs = scalar_stats_agg(&segs);
    let agg = aggs.get("title").expect("title agg present");
    assert_eq!(decode_ipc_string(&agg.min), "alpha");
    assert_eq!(decode_ipc_string(&agg.max), "echo");
}

#[test]
fn scalar_stats_agg_unions_large_utf8_min_max_across_segments() {
    let segs = vec![
        text_seg("body", "mango", "papaya", true),
        text_seg("body", "apple", "orange", true),
    ];
    let aggs = scalar_stats_agg(&segs);
    let agg = aggs.get("body").expect("body agg present");
    assert_eq!(decode_ipc_string(&agg.min), "apple");
    assert_eq!(decode_ipc_string(&agg.max), "papaya");
}

#[test]
fn bounds_of_different_types_are_no_bounds() {
    let segs = vec![
        text_seg("title", "alpha", "delta", false),
        text_seg("title", "bravo", "echo", true),
    ];
    assert!(scalar_stats_agg(&segs).is_empty());
}

#[test]
fn prune_parts_for_id_range_filters_non_overlapping_parts() {
    let part0 = entry_from_segments(&[seg(0, 99, &[], None, 0.0)], 0);
    let part1 = entry_from_segments(&[seg(100, 199, &[], None, 0.0)], 1);
    let part2 = entry_from_segments(&[seg(200, 299, &[], None, 0.0)], 2);
    let part3 = entry_from_segments(&[seg(300, 399, &[], None, 0.0)], 3);
    let list = list_with(vec![part0, part1.clone(), part2.clone(), part3]);

    let ids = prune_parts_for_id_range(&list, 150, 250);
    assert_eq!(ids.len(), 2);
    assert!(ids.contains(&part1.part_id));
    assert!(ids.contains(&part2.part_id));
}

#[test]
fn prune_parts_for_fts_prefix_filters_disjoint_term_ranges() {
    let part0 = entry_from_segments(&[seg(0, 10, &["alpha", "bravo", "charlie"], None, 0.0)], 0);
    let part1 = entry_from_segments(&[seg(11, 20, &["delta", "echo", "foxtrot"], None, 0.0)], 1);
    let part2 = entry_from_segments(&[seg(21, 30, &["hotel", "kilo", "lima"], None, 0.0)], 2);
    let list = list_with(vec![part0, part1.clone(), part2]);

    let survivors = prune_parts_for_fts_prefix(&list, "title", b"echo");
    assert_eq!(survivors.len(), 1);
    assert_eq!(survivors[0], part1.part_id);
}

#[test]
fn prune_parts_for_fts_prefix_keeps_part_with_no_aggregate() {
    let part = entry_from_segments(&[seg(0, 10, &[], None, 0.0)], 0);
    let list = list_with(vec![part.clone()]);
    let survivors = prune_parts_for_fts_prefix(&list, "missing", b"any");
    assert_eq!(survivors, vec![part.part_id]);
}

fn without_range(filter: Vec<u8>) -> FtsSummaryAgg {
    FtsSummaryAgg {
        term_bloom_n_blocks: (filter.len() / 64) as u32,
        term_bloom_union: filter,
        n_terms_distinct: 0,
        term_range_union: None,
    }
}

#[test]
fn prefix_pruning_keeps_what_nothing_is_known_of() {
    let mut part = entry_from_segments(&[seg(0, 10, &[], None, 0.0)], 0);
    part.fts_summary_agg.insert("title".to_string(), without_range(Vec::new()));
    let id = part.part_id;
    assert_eq!(prune_parts_for_fts_prefix(&list_with(vec![part]), "title", b"any"), vec![id]);
    let mut part = entry_from_segments(&[seg(0, 10, &[], None, 0.0)], 0);
    let empty = BloomBuilder::with_n_blocks(16).finish().to_bytes();
    part.fts_summary_agg.insert("title".to_string(), without_range(empty));
    let id = part.part_id;
    let list = list_with(vec![part]);
    assert!(prune_parts_for_fts_prefix(&list, "title", b"any").is_empty());
    assert_eq!(prune_parts_for_fts_prefix(&list, "title", b""), vec![id], "every term matches");
}

#[test]
fn one_superfile_without_a_summary_makes_all_unknown() {
    let known = seg(0, 10, &["alpha"], Some(vec![1.0, 0.0]), 0.5);
    let unknown = seg(11, 20, &[], None, 0.0);
    let both = [Arc::clone(&known), unknown];
    assert!(compute(&both, ColumnMap::new()).fts_summary_agg.get("title").is_none());
    assert!(vector_groups(&both).is_empty());
    assert_eq!(vector_groups(&[known]).len(), 1);
    let part = entry_from_segments(&both, 0);
    let id = part.part_id;
    let list = list_with(vec![part]);
    assert_eq!(prune_parts_for_fts_prefix(&list, "title", b"zulu"), vec![id]);
    assert_eq!(prune_parts_for_fts_terms(&list, "title", &["zulu"], BoolMode::And), vec![id]);
}

#[test]
fn prune_parts_for_vector_filters_far_parts() {
    let part_a = entry_from_segments(&[seg(0, 10, &[], Some(vec![10.0, 0.0, 0.0]), 0.5)], 0);
    let part_b = entry_from_segments(&[seg(11, 20, &[], Some(vec![-10.0, 0.0, 0.0]), 0.5)], 1);
    let list = list_with(vec![part_a.clone(), part_b]);
    let survivors = prune_vector(&list, "emb", &[10.0, 0.0, 0.0], 1.0);
    assert_eq!(survivors.len(), 1);
    assert_eq!(survivors[0], part_a.part_id);
}

#[test]
fn prune_parts_for_vector_keeps_overlapping_envelope() {
    let part_a = entry_from_segments(&[seg(0, 10, &[], Some(vec![1.0, 0.0, 0.0]), 1.0)], 0);
    let part_b = entry_from_segments(&[seg(11, 20, &[], Some(vec![-1.0, 0.0, 0.0]), 1.0)], 1);
    let list = list_with(vec![part_a, part_b]);
    let survivors = prune_vector(&list, "emb", &[0.0, 0.0, 0.0], 1.0);
    assert_eq!(survivors.len(), 2);
}

#[test]
fn vector_pruning_keeps_what_it_cannot_measure() {
    let part = entry_from_segments(&[seg(0, 10, &[], Some(vec![10.0, 0.0, 0.0]), 0.5)], 0);
    let list = list_with(vec![part.clone()]);
    // another dimension, and a column that is not there
    assert_eq!(prune_vector(&list, "emb", &[0.0, 0.0], 0.0), vec![part.part_id]);
    assert_eq!(prune_vector(&list, "other", &[0.0, 0.0, 0.0], 0.0), vec![part.part_id]);
    assert_eq!(prune_vector(&list, "emb", &[0.0, 0.0, 0.0], 0.0), Vec::<PartId>::new());
    assert_eq!(decode_centroid_envelope(&[0, 0, 128, 63, 0, 0, 0, 64]), bits(&[1.0, 2.0]));
}

#[test]
fn columns_of_mixed_dimensions_have_no_sphere() {
    let a = seg(0, 10, &[], Some(vec![1.0, 0.0]), 0.5);
    let b = seg(11, 20, &[], Some(vec![1.0, 0.0, 0.0]), 0.5);
    assert!(vector_groups(&[Arc::clone(&a), b]).is_empty());
    let groups = vector_groups(&[Arc::clone(&a), a]);
    assert_eq!(groups.len(), 1);
    assert_eq!(groups[0].column, "emb");
    assert_eq!(groups[0].spheres.len(), 2);
}

#[test]
fn pruning_is_monotonic_no_false_negatives() {
    let segs_part0 = vec![
        seg(0, 10, &["apple"], None, 0.0),
        seg(11, 20, &["banana", "cherry"], None, 0.0),
    ];
    let segs_part1 = vec![
        seg(21, 30, &["alpha"], None, 0.0),
        seg(31, 40, &["echo", "foxtrot"], None, 0.0),
    ];
    let part0 = entry_from_segments(&segs_part0, 0);
    let part1 = entry_from_segments(&segs_part1, 1);
    let list = list_with(vec![part0.clone(), part1.clone()]);

    let survivors = prune_parts_for_fts_prefix(&list, "title", b"ban");
    assert!(survivors.contains(&part0.part_id));

    let survivors2 = prune_parts_for_fts_prefix(&list, "title", b"ec");
    assert!(survivors2.contains(&part1.part_id));
}

#[test]
fn term_pruning_reads_the_joined_filters() {
    let part0 = entry_from_segments(
        &[seg(0, 10, &["apple"], None, 0.0), seg(11, 20, &["banana"], None, 0.0)],
        0,
    );
    let part1 = entry_from_segments(&[seg(21, 30, &["echo"], None, 0.0)], 1);
    let list = list_with(vec![part0.clone(), part1.clone()]);
    assert_eq!(
        prune_parts_for_fts_terms(&list, "title", &["apple", "banana"], BoolMode::And),
        vec![part0.part_id]
    );
    assert_eq!(
        prune_parts_for_fts_terms(&list, "title", &["apple", "echo"], BoolMode::Or),
        vec![part0.part_id, part1.part_id]
    );
    assert_eq!(
        prune_parts_for_fts_terms(&list, "title", &["apple", "echo"], BoolMode::And),
        Vec::<PartId>::new()
    );
}

#[test]
fn filters_of_different_sizes_are_no_filter() {
    let a = seg(0, 10, &["apple"], None, 0.0);
    let mut fts_summary = ColumnMap::new();
    let mut bloom = BloomBuilder::with_n_blocks(32);
    bloom.insert(b"banana");
    fts_summary.insert(
        "title".to_string(),
        FtsSummary {
            term_bloom: bloom.finish(),
            n_terms_distinct: 1,
            term_range: (b"banana".to_vec(), b"banana".to_vec()),
        },
    );
    let uri = SuperfileUri::new_v4();
    let b = Arc::new(SuperfileEntry {
        superfile_id: uri.0,
        uri,
        n_docs: 1,
        id_min: 1,
        id_max: 1,
        scalar_stats: ScalarStatsTable::new(),
        fts_summary,
        vector_summary: ColumnMap::new(),
        partition_key: Vec::new(),
        partition_hint: None,
    });
    let again = seg(12, 13, &["cherry"], None, 0.0);
    let aggs = compute(&[a, b, again], ColumnMap::new());
    let agg = aggs.fts_summary_agg.get("title").expect("agg");
    assert!(agg.term_bloom_union.is_empty());
    assert_eq!(agg.term_bloom_n_blocks, 0);
    assert_eq!(
        agg.term_range_union,
        Some((b"apple".to_vec(), b"cherry".to_vec()))
    );
}

#[test]
fn prefix_ranges_meet_at_their_edges() {
    assert!(prefix_overlaps_range(b"b", b"apple", b"banana"));
    assert!(prefix_overlaps_range(b"banana", b"banana", b"cherry"));
    assert!(!prefix_overlaps_range(b"c", b"apple", b"banana"));
    assert!(!prefix_overlaps_range(b"a", b"b", b"c"));
    assert!(prefix_overlaps_range(b"\xff", b"a", b"\xff\x01"));
}
