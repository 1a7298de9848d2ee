use std::collections::HashSet;
use std::sync::Arc;

use supertable::column_map::ColumnMap;
use supertable::error::QueryError;
use supertable::manifest::bloom::BloomBuilder;
use supertable::manifest::list_prune::BoolMode;
use supertable::manifest::{
    FtsSummary, Manifest, ScalarStatsTable, SuperfileEntry, SuperfileUri, VectorSummary,
};
use supertable::options::{Field, SupertableOptions};
use supertable::query::skip::{
    centroid_for, fts_bloom_skip, fts_prefix_skip, superfiles_sorted_by_centroid_distance,
    vector_centroid_skip,
};
use supertable::query::sql::{sql_partitions, sql_source, SqlSource, TABLE_NAME};
use supertable::query::vector::{merge_search, tag_hits, top_k_ascending, SuperfileHit};
use supertable::scalar::{DataType, TypeKind};

fn empty_segment() -> SuperfileEntry {
    SuperfileEntry {
        superfile_id: SuperfileUri::new_v4().0,
        uri: SuperfileUri::new_v4(),
        n_docs: 0,
        id_min: 0,
        id_max: 0,
        scalar_stats: ScalarStatsTable::new(),
        fts_summary: ColumnMap::new(),
        vector_summary: ColumnMap::new(),
        partition_key: Vec::new(),
        partition_hint: None,
    }
}

fn fts_summary_with(terms: &[&str]) -> FtsSummary {
    let mut bb = BloomBuilder::new();
    for t in terms {
        bb.insert(t.as_bytes());
    }
    let term_range = match (terms.first(), terms.last()) {
        (Some(min), Some(max)) => (min.as_bytes().to_vec(), max.as_bytes().to_vec()),
        _ => (Vec::new(), Vec::new()),
    };
    FtsSummary { term_bloom: bb.finish(), n_terms_distinct: terms.len() as u32, term_range }
}

fn segment_with_terms(column: &str, terms: &[&str]) -> Arc<SuperfileEntry> {
    let mut e = empty_segment();
    e.fts_summary.insert(column.to_string(), fts_summary_with(terms));
    Arc::new(e)
}

fn segment_with_centroid(column: &str, centroid: Vec<f32>, radius: f32) -> Arc<SuperfileEntry> {
    let mut e = empty_segment();
    e.vector_summary.insert(
        column.to_string(),
        VectorSummary {
            centroid: centroid.iter().map(|x| x.to_bits()).collect(),
            radius: radius.to_bits(),
        },
    );
    Arc::new(e)
}

#[test]
fn bloom_skip_keeps_segments_with_any_query_term_in_or_mode() {
    let s_a = segment_with_terms("title", &["alpha", "beta"]);
    let s_b = segment_with_terms("title", &["gamma", "delta"]);
    let mask = fts_bloom_skip(&[s_a, s_b], "title", &["alpha", "missing"], BoolMode::Or);
    assert_eq!(mask, vec![true, false]);
}

#[test]
fn bloom_skip_requires_all_terms_present_in_and_mode() {
    let s_a = segment_with_terms("title", &["alpha", "beta"]);
    let s_b = segment_with_terms("title", &["alpha", "gamma"]);
    let mask = fts_bloom_skip(&[s_a, s_b], "title", &["alpha", "beta"], BoolMode::And);
    assert_eq!(mask, vec![true, false]);
}

#[test]
fn bloom_skip_unknown_column_keeps_all() {
    let s = segment_with_terms("title", &["alpha"]);
    let mask = fts_bloom_skip(&[s], "no_such_column", &["alpha"], BoolMode::Or);
    assert_eq!(mask, vec![true]);
}

#[test]
fn bloom_skip_empty_terms_keeps_all() {
    let s = segment_with_terms("title", &["alpha"]);
    let mask = fts_bloom_skip(&[s], "title", &[], BoolMode::Or);
    assert_eq!(mask, vec![true]);
}

#[test]
fn bloom_skip_with_no_segments_returns_empty_vec() {
    let mask = fts_bloom_skip(&[], "title", &["alpha"], BoolMode::Or);
    assert!(mask.is_empty());
}

#[test]
fn prefix_skip_prunes_segments_outside_prefix_range() {
    let s_a = segment_with_terms("title", &["apple", "banana"]);
    let s_b = segment_with_terms("title", &["python", "rust"]);
    let mask = fts_prefix_skip(&[s_a, s_b], "title", b"rust");
    assert_eq!(mask, vec![false, true]);
}

#[test]
fn prefix_skip_keeps_segments_with_matching_prefix_inside_range() {
    let s = segment_with_terms("title", &["rusting", "rusty"]);
    let mask = fts_prefix_skip(&[s], "title", b"rust");
    assert_eq!(mask, vec![true]);
}

#[test]
fn prefix_skip_empty_prefix_keeps_all() {
    let s = segment_with_terms("title", &["alpha"]);
    let mask = fts_prefix_skip(&[s], "title", b"");
    assert_eq!(mask, vec![true]);
}

#[test]
fn prefix_skip_unknown_column_keeps_all() {
    let s = segment_with_terms("title", &["alpha"]);
    let mask = fts_prefix_skip(&[s], "no_such_column", b"alp");
    assert_eq!(mask, vec![true]);
}

#[test]
fn no_holder_of_a_term_is_left_out() {
    let held = ["ant", "bee", "cow", "dog", "eel"];
    let s = segment_with_terms("title", &held);
    for t in held {
        let kept = fts_bloom_skip(&[Arc::clone(&s)], "title", &[t, "zebra"], BoolMode::Or);
        assert_eq!(kept, vec![true]);
        let kept = fts_bloom_skip(&[Arc::clone(&s)], "title", &[t], BoolMode::And);
        assert_eq!(kept, vec![true]);
        let kept = fts_prefix_skip(&[Arc::clone(&s)], "title", &t.as_bytes()[..2]);
        assert_eq!(kept, vec![true]);
    }
}

#[test]
fn prefix_skip_zero_term_segment_pruned() {
    let s = Arc::new(empty_segment());
    let mask = fts_prefix_skip(&[s], "title", b"rust");
    assert_eq!(mask, vec![true]);
    let none = segment_with_terms("title", &[]);
    let mask = fts_prefix_skip(&[none], "title", b"rust");
    assert_eq!(mask, vec![false]);
}

#[test]
fn vector_centroid_skip_v1_keeps_all_segments() {
    let s_a = segment_with_centroid("emb", vec![0.0; 16], 0.5);
    let s_b = segment_with_centroid("emb", vec![10.0; 16], 0.5);
    let mask = vector_centroid_skip(&[s_a, s_b]);
    assert_eq!(mask, vec![true, true]);
}

/// Squared distances of the centres.
fn l2sq_order(superfiles: &[Arc<SuperfileEntry>], column: &str, q: &[f32]) -> Vec<usize> {
    let distances: Vec<Option<u32>> = superfiles
        .iter()
        .map(|e| {
            centroid_for(e, column, q.len()).map(|c| {
                c.iter()
                    .zip(q.iter())
                    .map(|(a, b)| (f32::from_bits(*a) - b) * (f32::from_bits(*a) - b))
                    .sum::<f32>()
                    .to_bits()
            })
        })
        .collect();
    superfiles_sorted_by_centroid_distance(&distances)
}

fn one_hot(place: usize) -> Vec<f32> {
    let mut v = vec![0.0f32; 16];
    v[place] = 1.0;
    v
}

#[test]
fn superfiles_sorted_by_centroid_distance_orders_by_metric() {
    let near = segment_with_centroid("emb", one_hot(0), 0.0);
    let far = segment_with_centroid("emb", one_hot(7), 0.0);
    let order = l2sq_order(&[far, near], "emb", &one_hot(0));
    assert_eq!(order, vec![1, 0]);
}

#[test]
fn superfiles_sorted_by_centroid_distance_pushes_missing_summary_to_end() {
    let with_v = segment_with_centroid("emb", vec![1.0f32; 16], 0.0);
    let without_v = Arc::new(empty_segment());
    let order = l2sq_order(&[without_v, with_v], "emb", &[1.0f32; 16]);
    assert_eq!(order, vec![1, 0]);
}

#[test]
fn centres_of_another_dimension_are_no_centres() {
    let s = segment_with_centroid("emb", vec![1.0f32; 16], 0.0);
    assert!(centroid_for(&s, "emb", 8).is_none());
    assert!(centroid_for(&s, "other", 16).is_none());
    assert_eq!(centroid_for(&s, "emb", 16).expect("centre").len(), 16);
}

#[test]
fn equal_and_negative_distances_keep_their_order() {
    let b = |x: f32| Some(x.to_bits());
    let order = superfiles_sorted_by_centroid_distance(&[b(0.5), b(-1.0), b(0.5), b(-2.0), None]);
    assert_eq!(order, vec![3, 1, 0, 2, 4]);
}

/// Vectors with one component set, by the place of the row.
fn planted(start: usize, n: usize, dim: usize) -> Vec<Vec<f32>> {
    (start..start + n)
        .map(|g| (0..dim).map(|d| if d == g % dim { 1.0 } else { 0.0 }).collect())
        .collect()
}

fn cosine(a: &[f32], b: &[f32]) -> f32 {
    let dot: f32 = a.iter().zip(b).map(|(x, y)| x * y).sum();
    let na: f32 = a.iter().map(|x| x * x).sum::<f32>().sqrt();
    let nb: f32 = b.iter().map(|x| x * x).sum::<f32>().sqrt();
    1.0 - dot / (na * nb)
}

/// The `k` nearest rows of a superfile.
fn search(uri: SuperfileUri, rows: &[Vec<f32>], q: &[f32], k: usize) -> Vec<SuperfileHit> {
    let mut hits: Vec<(u32, f32)> =
        rows.iter().enumerate().map(|(i, v)| (i as u32, cosine(v, q))).collect();
    hits.sort_by(|a, b| a.1.partial_cmp(&b.1).expect("finite"));
    hits.truncate(k);
    let plain: Vec<(u32, u32)> = hits.iter().map(|(d, s)| (*d, s.to_bits())).collect();
    tag_hits(uri, &plain)
}

fn three_superfiles(dim: usize) -> Vec<(SuperfileUri, Vec<Vec<f32>>)> {
    (0..3).map(|c| (SuperfileUri::new_v4(), planted(c * 8, 8, dim))).collect()
}

fn search_all(
    superfiles: &[(SuperfileUri, Vec<Vec<f32>>)],
    q: &[f32],
    k: usize,
) -> Vec<SuperfileHit> {
    let found = superfiles.iter().map(|(u, rows)| Ok(search(*u, rows, q, k))).collect();
    merge_search(found, k).expect("query")
}

#[test]
fn vector_search_empty_supertable_returns_empty() {
    assert!(search_all(&[], &[0.1f32; 16], 5).is_empty());
}

#[test]
fn vector_search_k_zero_short_circuits() {
    let table = vec![(SuperfileUri::new_v4(), planted(0, 8, 16))];
    assert!(search_all(&table, &[0.1f32; 16], 0).is_empty());
}

#[test]
fn vector_search_returns_ascending_distance_order() {
    let dim = 16;
    let table = vec![(SuperfileUri::new_v4(), planted(0, 8, dim))];
    let q: Vec<f32> = (0..dim).map(|d| (d as f32) / 100.0 + 0.001).collect();
    let hits = search_all(&table, &q, 5);
    assert!(!hits.is_empty());
    for w in hits.windows(2) {
        assert!(
            f32::from_bits(w[0].score) <= f32::from_bits(w[1].score),
            "expected ascending: {:?} then {:?}",
            w[0],
            w[1]
        );
    }
}

#[test]
fn vector_search_top_k_caps_at_k() {
    let hits = search_all(&three_superfiles(16), &[0.1f32; 16], 7);
    assert_eq!(hits.len(), 7);
}

#[test]
fn vector_search_carries_segment_uris_for_multi_segment_results() {
    let hits = search_all(&three_superfiles(16), &[0.1f32; 16], 24);
    let segment_uris: HashSet<u128> = hits.iter().map(|h| h.segment.0).collect();
    assert_eq!(segment_uris.len(), 3);
}

#[test]
fn vector_search_oracle_top_k_set_matches_single_superfile() {
    let dim = 16;
    let table = three_superfiles(dim);
    let q = one_hot(0);

    let oracle = search(SuperfileUri::new_v4(), &planted(0, 24, dim), &q, 2);
    let oracle_globals: HashSet<u32> = oracle.iter().map(|h| h.local_doc_id).collect();
    assert_eq!(oracle_globals, [0u32, 16].iter().copied().collect());

    let hits = search_all(&table, &q, 2);
    let globals: HashSet<u32> = hits
        .iter()
        .map(|h| {
            let at = table.iter().position(|(u, _)| *u == h.segment).expect("known superfile");
            (at as u32) * 8 + h.local_doc_id
        })
        .collect();
    assert_eq!(hits.len(), oracle.len());
    assert_eq!(globals, oracle_globals);
}

#[test]
fn vector_search_unknown_column_errors() {
    let uri = SuperfileUri::new_v4();
    let err = merge_search(
        vec![
            Ok(tag_hits(uri, &[(0, 0)])),
            Err(QueryError::Parquet("no vector column nope".to_string())),
        ],
        5,
    )
    .expect_err("expected error");
    assert!(matches!(err, QueryError::Parquet(_)), "got {err:?}");
}

#[test]
fn nearest_rows_of_two_superfiles_are_interleaved() {
    let (a, b) = (SuperfileUri(1), SuperfileUri(2));
    let s = |x: f32| x.to_bits();
    let found = vec![
        tag_hits(a, &[(0, s(0.1)), (1, s(0.4))]),
        tag_hits(b, &[(7, s(0.2)), (8, s(0.3))]),
    ];
    let hits = top_k_ascending(&found, 3);
    let plain: Vec<(u128, u32)> = hits.iter().map(|h| (h.segment.0, h.local_doc_id)).collect();
    assert_eq!(plain, vec![(1, 0), (2, 7), (2, 8)]);
}

#[test]
fn sql_reads_the_superfiles_of_a_table_without_parts() {
    let field = Field {
        name: "title".to_string(),
        data_type: DataType { kind: TypeKind::LargeUtf8, name: "LargeUtf8".to_string() },
        nullable: false,
    };
    let opts = SupertableOptions::new(vec![field], vec![], vec![], false).expect("opts");
    let entry = Arc::new(empty_segment());
    let m = Manifest::empty(Arc::new(opts)).with_appended(vec![Arc::clone(&entry)]);
    match sql_source(&m) {
        SqlSource::Flat(s) => {
            assert_eq!(s.len(), 1);
            assert_eq!(s[0].uri, entry.uri);
        }
        other => panic!("expected the flat list, got {:?}", other),
    }
    assert_eq!(TABLE_NAME, "supertable");
}

#[test]
fn a_table_without_rows_has_one_empty_partition() {
    assert_eq!(sql_partitions(Vec::<Vec<u8>>::new()), vec![Vec::<u8>::new()]);
    assert_eq!(sql_partitions(vec![vec![1], vec![2, 3]]), vec![vec![1], vec![2, 3]]);
}
