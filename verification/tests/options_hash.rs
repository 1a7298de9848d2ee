use supertable::manifest::list::PartitionStrategy;
use supertable::manifest::options_hash::{
    compute_options_hash, push_str, push_tag, verify_options_hash,
};
use supertable::manifest::part::ContentHash;
use supertable::options::{Field, FtsConfig, Metric, SupertableOptions, VectorConfig};
use supertable::scalar::{DataType, TypeKind};

fn text_field(name: &str, nullable: bool) -> Field {
    Field {
        name: name.to_string(),
        data_type: DataType { kind: TypeKind::LargeUtf8, name: "LargeUtf8".to_string() },
        nullable,
    }
}

fn schema_title_only() -> Vec<Field> {
    vec![text_field("title", false)]
}

fn schema_title_emb(dim: usize) -> Vec<Field> {
    vec![
        text_field("title", false),
        Field {
            name: "emb".to_string(),
            data_type: DataType {
                kind: TypeKind::FixedSizeList { float32_items: true, list_size: dim as i32 },
                name: format!("FixedSizeList({} x non-null Float32)", dim),
            },
            nullable: false,
        },
    ]
}

fn fc(name: &str) -> FtsConfig {
    FtsConfig { column: name.to_string() }
}

fn emb(metric: Metric) -> VectorConfig {
    VectorConfig { column: "emb".to_string(), dim: 16, n_cent: 4, rot_seed: 0, metric }
}

fn fts_opts() -> SupertableOptions {
    SupertableOptions::new(schema_title_only(), vec![fc("title")], vec![], true).expect("opts")
}

fn time_range() -> PartitionStrategy {
    PartitionStrategy::TimeRange { column: "_id".to_string(), granularity_secs: 86_400 }
}

#[test]
fn compute_options_hash_deterministic() {
    let h1 = compute_options_hash(&fts_opts(), &time_range());
    let h2 = compute_options_hash(&fts_opts(), &time_range());
    assert_eq!(h1.0, h2.0);
}

#[test]
fn compute_options_hash_changes_with_schema() {
    let opts_b =
        SupertableOptions::new(vec![text_field("body", false)], vec![fc("body")], vec![], true)
            .expect("opts");
    let h_a = compute_options_hash(&fts_opts(), &time_range());
    let h_b = compute_options_hash(&opts_b, &time_range());
    assert_ne!(h_a.0, h_b.0);
}

#[test]
fn compute_options_hash_changes_with_nullability() {
    let opts_b =
        SupertableOptions::new(vec![text_field("title", true)], vec![fc("title")], vec![], true)
            .expect("opts");
    let h_a = compute_options_hash(&fts_opts(), &time_range());
    let h_b = compute_options_hash(&opts_b, &time_range());
    assert_ne!(h_a.0, h_b.0);
}

#[test]
fn compute_options_hash_changes_with_fts_column_set() {
    let opts_b = SupertableOptions::new(
        vec![text_field("title", false), text_field("subtitle", false)],
        vec![fc("title"), fc("subtitle")],
        vec![],
        true,
    )
    .expect("opts");
    let h_a = compute_options_hash(&fts_opts(), &time_range());
    let h_b = compute_options_hash(&opts_b, &time_range());
    assert_ne!(h_a.0, h_b.0);
}

#[test]
fn compute_options_hash_changes_with_fts_column_order() {
    let schema_two = vec![text_field("title", false), text_field("subtitle", false)];
    let opts_a = SupertableOptions::new(
        schema_two.clone(),
        vec![fc("title"), fc("subtitle")],
        vec![],
        true,
    )
    .expect("opts");
    let opts_b =
        SupertableOptions::new(schema_two, vec![fc("subtitle"), fc("title")], vec![], true)
            .expect("opts");
    let h_a = compute_options_hash(&opts_a, &time_range());
    let h_b = compute_options_hash(&opts_b, &time_range());
    assert_ne!(h_a.0, h_b.0);
}

#[test]
fn compute_options_hash_changes_with_vector_columns() {
    let opts_b = SupertableOptions::new(
        schema_title_emb(16),
        vec![fc("title")],
        vec![emb(Metric::Cosine)],
        true,
    )
    .expect("opts");
    let h_a = compute_options_hash(&fts_opts(), &time_range());
    let h_b = compute_options_hash(&opts_b, &time_range());
    assert_ne!(h_a.0, h_b.0);
}

#[test]
fn compute_options_hash_changes_with_vector_metric() {
    let mk = |metric: Metric| {
        SupertableOptions::new(schema_title_emb(16), vec![], vec![emb(metric)], true)
            .expect("opts")
    };
    let h_a = compute_options_hash(&mk(Metric::Cosine), &time_range());
    let h_b = compute_options_hash(&mk(Metric::NegDot), &time_range());
    assert_ne!(h_a.0, h_b.0);
}

fn hash_by(n_buckets: u32) -> PartitionStrategy {
    PartitionStrategy::Hash { column: "_id".to_string(), n_buckets }
}

fn range_by(boundaries: Vec<Vec<u8>>) -> PartitionStrategy {
    PartitionStrategy::ColumnRange { column: "_id".to_string(), boundaries }
}

#[test]
fn compute_options_hash_distinguishes_partition_strategy_variants() {
    let opts = fts_opts();
    let h_time = compute_options_hash(&opts, &time_range());
    let h_hash = compute_options_hash(&opts, &hash_by(16));
    let h_range = compute_options_hash(&opts, &range_by(vec![vec![1, 2, 3], vec![4, 5, 6]]));
    assert_ne!(h_time.0, h_hash.0);
    assert_ne!(h_hash.0, h_range.0);
    assert_ne!(h_time.0, h_range.0);
}

#[test]
fn compute_options_hash_partition_field_changes_propagate() {
    let opts = fts_opts();
    let h_t1 = compute_options_hash(&opts, &time_range());
    let h_t2 = compute_options_hash(
        &opts,
        &PartitionStrategy::TimeRange { column: "_id".to_string(), granularity_secs: 3600 },
    );
    assert_ne!(h_t1.0, h_t2.0);

    let h_h1 = compute_options_hash(&opts, &hash_by(16));
    let h_h2 = compute_options_hash(&opts, &hash_by(32));
    assert_ne!(h_h1.0, h_h2.0);

    let h_r1 = compute_options_hash(&opts, &range_by(vec![vec![1, 2]]));
    let h_r2 = compute_options_hash(&opts, &range_by(vec![vec![1, 2], vec![3, 4]]));
    assert_ne!(h_r1.0, h_r2.0);
}

#[test]
fn verify_options_hash_accepts_matching_pair() {
    let h = compute_options_hash(&fts_opts(), &time_range());
    verify_options_hash(h, h).expect("matching pair accepted");
}

#[test]
fn verify_options_hash_skips_zero_sentinel() {
    let computed = compute_options_hash(&fts_opts(), &time_range());
    let zero = ContentHash([0u8; 32]);
    verify_options_hash(computed, zero).expect("zero sentinel bypasses verification");
}

#[test]
fn verify_options_hash_rejects_mismatch_with_hex_payload() {
    let h_a = ContentHash([1u8; 32]);
    let h_b = ContentHash([2u8; 32]);
    let err = verify_options_hash(h_a, h_b).expect_err("mismatch must error");
    let rendered = err.message();
    assert!(rendered.contains("options_hash mismatch"), "got: {rendered}");
    assert!(rendered.contains("blake3:"), "got: {rendered}");
    assert!(rendered.contains(&"01".repeat(32)), "got: {rendered}");
    assert!(rendered.contains(&"02".repeat(32)), "got: {rendered}");
}

#[test]
fn options_hash_mismatch_is_error_impl() {
    let h_a = ContentHash([3u8; 32]);
    let h_b = ContentHash([4u8; 32]);
    let err = verify_options_hash(h_a, h_b).expect_err("mismatch");
    assert!(err.message().contains("options_hash mismatch"));
}

#[test]
fn push_helpers_emit_length_prefixed_bytes() {
    let mut buf = Vec::new();
    push_tag(&mut buf, b"schema");
    assert_eq!(buf, vec![6u8, b's', b'c', b'h', b'e', b'm', b'a']);

    let mut buf = Vec::new();
    push_str(&mut buf, "ok");
    assert_eq!(buf, vec![2u8, 0, 0, 0, 0, 0, 0, 0, b'o', b'k']);
}

#[test]
fn the_zero_hash_of_a_caller_is_no_pass() {
    let err = verify_options_hash(ContentHash([0u8; 32]), ContentHash([5u8; 32]))
        .expect_err("only the stored hash may be zero");
    assert_eq!(err.actual, "05".repeat(32));
}
