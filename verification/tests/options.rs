use supertable::error::BuildError;
use supertable::manifest::list::PartitionStrategy;
use supertable::options::{
    default_reader_thread_count, default_writer_thread_count, Field, FtsConfig, Metric,
    SupertableConfig, SupertableOptions, ThreadCount, VectorConfig,
};
use supertable::scalar::{DataType, TypeKind};

fn ty(kind: TypeKind, name: &str) -> DataType {
    DataType { kind, name: name.to_string() }
}

fn field(name: &str, data_type: DataType) -> Field {
    Field { name: name.to_string(), data_type, nullable: false }
}

fn large_utf8() -> DataType {
    ty(TypeKind::LargeUtf8, "LargeUtf8")
}

fn utf8() -> DataType {
    ty(TypeKind::Utf8, "Utf8")
}

fn fixed_list_f32(dim: usize) -> DataType {
    ty(
        TypeKind::FixedSizeList { float32_items: true, list_size: dim as i32 },
        &format!("FixedSizeList({} x Float32)", dim),
    )
}

fn schema_with_vector(dim: usize) -> Vec<Field> {
    vec![field("title", large_utf8()), field("emb", fixed_list_f32(dim))]
}

fn vc(name: &str, dim: usize) -> VectorConfig {
    VectorConfig {
        column: name.to_string(),
        dim,
        n_cent: 4,
        rot_seed: 0,
        metric: Metric::Cosine,
    }
}

fn fc(name: &str) -> FtsConfig {
    FtsConfig { column: name.to_string() }
}

fn valid() -> SupertableOptions {
    SupertableOptions::new(schema_with_vector(16), vec![fc("title")], vec![vc("emb", 16)], true)
        .expect("valid options should succeed")
}

#[test]
fn valid_options_with_fts_and_vector_succeeds() {
    let opts = valid();
    assert_eq!(opts.id_column, "_id");
    assert_eq!(opts.fts_columns.len(), 1);
    assert_eq!(opts.vector_columns.len(), 1);
}

#[test]
fn schema_that_contains_id_column_is_rejected() {
    let s = vec![
        field("_id", ty(TypeKind::UInt64, "UInt64")),
        field("emb", fixed_list_f32(16)),
    ];
    let err = SupertableOptions::new(s, vec![], vec![vc("emb", 16)], false)
        .expect_err("expected error");
    assert!(matches!(err, BuildError::IdColumnReserved(c) if c == "_id"));
}

#[test]
fn fts_column_missing_from_schema_rejected() {
    let err = SupertableOptions::new(schema_with_vector(16), vec![fc("absent")], vec![], true)
        .expect_err("expected error");
    assert!(matches!(err, BuildError::FtsColumnMissing { column } if column == "absent"));
}

#[test]
fn fts_column_wrong_type_rejected() {
    let s = vec![field("body", utf8())];
    let err = SupertableOptions::new(s, vec![fc("body")], vec![], true)
        .expect_err("expected error");
    assert!(
        matches!(err, BuildError::FtsColumnMustBeLargeUtf8 { column, .. } if column == "body")
    );
}

#[test]
fn vector_column_missing_from_schema_rejected() {
    let s = vec![field("category", utf8())];
    let err = SupertableOptions::new(s, vec![], vec![vc("emb", 16)], false)
        .expect_err("expected error");
    assert!(matches!(err, BuildError::VectorColumnMissing { column } if column == "emb"));
}

#[test]
fn vector_column_not_fixed_size_list_rejected() {
    let s = vec![field("emb", ty(TypeKind::Float32, "Float32"))];
    let err = SupertableOptions::new(s, vec![], vec![vc("emb", 16)], false)
        .expect_err("expected error");
    assert!(matches!(
        err,
        BuildError::VectorColumnNotFixedSizeList { column, .. } if column == "emb"
    ));
}

#[test]
fn vector_column_wrong_inner_type_rejected() {
    let s = vec![field(
        "emb",
        ty(
            TypeKind::FixedSizeList { float32_items: false, list_size: 16 },
            "FixedSizeList(16 x Float64)",
        ),
    )];
    let err = SupertableOptions::new(s, vec![], vec![vc("emb", 16)], false)
        .expect_err("expected error");
    assert!(matches!(
        err,
        BuildError::VectorColumnNotFixedSizeList { column, .. } if column == "emb"
    ));
}

#[test]
fn vector_column_dim_mismatch_rejected() {
    let s = vec![field("emb", fixed_list_f32(8))];
    let err = SupertableOptions::new(s, vec![], vec![vc("emb", 16)], false)
        .expect_err("expected error");
    assert!(matches!(
        err,
        BuildError::VectorColumnDimMismatch { expected: 16, actual: 8, column } if column == "emb"
    ));
}

#[test]
fn vector_dim_below_min_rejected() {
    let s = vec![field("emb", fixed_list_f32(8))];
    let err = SupertableOptions::new(s, vec![], vec![vc("emb", 8)], false)
        .expect_err("expected error");
    assert!(matches!(
        err,
        BuildError::VectorDimOutOfRange { column, dim: 8 } if column == "emb"
    ));
}

#[test]
fn vector_dim_above_max_rejected() {
    let s = vec![field("emb", fixed_list_f32(8192))];
    let err = SupertableOptions::new(s, vec![], vec![vc("emb", 8192)], false)
        .expect_err("expected error");
    assert!(matches!(
        err,
        BuildError::VectorDimOutOfRange { column, dim: 8192 } if column == "emb"
    ));
}

#[test]
fn duplicate_logical_name_across_fts_and_vector_rejected() {
    let s = vec![field("title", large_utf8()), field("emb", fixed_list_f32(16))];
    let err = SupertableOptions::new(s, vec![], vec![vc("emb", 16), vc("emb", 16)], false)
        .expect_err("expected error");
    assert!(matches!(err, BuildError::DuplicateLogicalName(n) if n == "emb"));
}

#[test]
fn reserved_separator_in_fts_column_name_rejected() {
    let s = vec![field("ti\u{1F}tle", large_utf8())];
    let err = SupertableOptions::new(s, vec![fc("ti\u{1F}tle")], vec![], true)
        .expect_err("expected error");
    assert!(matches!(err, BuildError::ReservedSeparatorInColumnName(_)));
}

#[test]
fn reserved_prefix_in_vector_column_name_rejected() {
    let s = vec![field("inf.emb", fixed_list_f32(16))];
    let err = SupertableOptions::new(s, vec![], vec![vc("inf.emb", 16)], false)
        .expect_err("expected error");
    assert!(matches!(err, BuildError::ReservedPrefixInColumnName(_)));
}

#[test]
fn fts_columns_without_tokenizer_rejected() {
    let s = vec![field("title", large_utf8())];
    let err = SupertableOptions::new(s, vec![fc("title")], vec![], false)
        .expect_err("expected error");
    assert!(matches!(err, BuildError::MissingTokenizer));
}

#[test]
fn empty_fts_and_vector_succeeds_without_tokenizer() {
    let s = vec![field("category", utf8())];
    SupertableOptions::new(s, vec![], vec![], false).expect("empty fts + vector should succeed");
}

#[test]
fn scalar_schema_drops_vector_columns_and_prepends_id() {
    let scalar = valid().scalar_schema();
    let names: Vec<&str> = scalar.iter().map(|f| f.name.as_str()).collect();
    assert_eq!(names, vec!["_id", "title"]);
    assert_eq!(
        scalar[0].data_type.kind,
        TypeKind::Decimal128 { precision: 38, scale: 0 }
    );
}

#[test]
fn scalar_schema_no_vector_columns_still_prepends_id() {
    let s = vec![field("title", large_utf8())];
    let opts =
        SupertableOptions::new(s, vec![fc("title")], vec![], true).expect("valid options");
    let scalar = opts.scalar_schema();
    let names: Vec<&str> = scalar.iter().map(|f| f.name.as_str()).collect();
    assert_eq!(names, vec!["_id", "title"]);
}

#[test]
fn effective_schema_prepends_id_keeps_vector_columns() {
    let eff = valid().effective_schema();
    let names: Vec<&str> = eff.iter().map(|f| f.name.as_str()).collect();
    assert_eq!(names, vec!["_id", "title", "emb"]);
}

#[test]
fn user_schema_returns_input_schema_unchanged() {
    let s = schema_with_vector(16);
    let opts =
        SupertableOptions::new(s.clone(), vec![fc("title")], vec![vc("emb", 16)], true)
            .expect("valid options");
    let us = opts.user_schema();
    assert_eq!(us.len(), s.len());
    for (a, b) in us.iter().zip(s.iter()) {
        assert_eq!(a.name, b.name);
    }
}

#[test]
fn with_id_column_overrides_default() {
    let opts = valid().with_id_column("row_id".to_string()).expect("override accepted");
    assert_eq!(opts.id_column, "row_id");
    let eff = opts.effective_schema();
    assert_eq!(eff[0].name, "row_id");
}

#[test]
fn with_id_column_rejects_name_that_collides_with_user_schema() {
    let err = valid().with_id_column("title".to_string()).expect_err("collision");
    assert!(matches!(err, BuildError::IdColumnReserved(c) if c == "title"));
}

#[test]
fn apply_config_sets_writer_pool_size_to_fixed_value() {
    let cfg = SupertableConfig {
        reader_threads: ThreadCount::Fixed(3),
        writer_threads: ThreadCount::Fixed(5),
        commit_threshold_size_mb: 7,
        verify_crc_on_open: true,
        id_column: "_id".to_string(),
    };
    let opts = valid().apply_config(&cfg).expect("apply_config");
    assert_eq!(opts.commit_threshold_size_mb, 7);
    assert_eq!(opts.reader_threads, 3);
    assert_eq!(opts.writer_threads, 5);
}

#[test]
fn apply_config_auto_resolves_to_num_cpus_defaults() {
    let cfg = SupertableConfig {
        reader_threads: ThreadCount::Auto,
        writer_threads: ThreadCount::Auto,
        commit_threshold_size_mb: 1024,
        verify_crc_on_open: true,
        id_column: "_id".to_string(),
    };
    let opts = valid().apply_config(&cfg).expect("apply_config");
    let reader_default = num_cpus::get().max(1);
    let writer_default = num_cpus::get().div_ceil(2).max(1);
    assert_eq!(opts.reader_threads, reader_default);
    assert_eq!(opts.writer_threads, writer_default);
    assert_eq!(opts.commit_threshold_size_mb, 1024);
    assert_eq!(opts.id_column, "_id");
}

#[test]
fn options_debug_format_doesnt_explode() {
    let s = format!("{:?}", valid());
    assert!(s.contains("SupertableOptions"));
    assert!(s.contains("_id"));
}

#[test]
fn defaults_are_those_of_the_table() {
    let opts = valid();
    assert_eq!(opts.target_superfiles_per_partition, 10_000);
    assert_eq!(opts.part_size_threshold_bytes, 10 * 1024 * 1024);
    assert_eq!(opts.eager_load_threshold_parts, 4);
    assert_eq!(opts.max_commit_retries, 10);
    assert_eq!(opts.commit_threshold_size_mb, 1024);
    assert_eq!(opts.put_multipart_threshold_bytes, 100 * 1024 * 1024);
    assert!(opts.verify_crc_on_open);
    assert_eq!(opts.memory_budget_bytes, None);
    assert!(matches!(
        opts.effective_partition_strategy(),
        PartitionStrategy::Hash { column, n_buckets: 1 } if column == "_id"
    ));
}

#[test]
fn setters_change_one_thing_each() {
    let opts = valid()
        .with_memory_budget(1)
        .with_target_superfiles_per_partition(2)
        .with_part_size_threshold_bytes(3)
        .with_eager_load_threshold(4)
        .with_max_commit_retries(5)
        .with_commit_threshold_size_mb(6)
        .with_put_multipart_threshold_bytes(7)
        .with_verify_crc_on_open(false)
        .with_partition_strategy(PartitionStrategy::Hash {
            column: "title".to_string(),
            n_buckets: 8,
        });
    assert_eq!(opts.memory_budget_bytes, Some(1));
    assert_eq!(opts.target_superfiles_per_partition, 2);
    assert_eq!(opts.part_size_threshold_bytes, 3);
    assert_eq!(opts.eager_load_threshold_parts, 4);
    assert_eq!(opts.max_commit_retries, 5);
    assert_eq!(opts.commit_threshold_size_mb, 6);
    assert_eq!(opts.put_multipart_threshold_bytes, 7);
    assert!(!opts.verify_crc_on_open);
    assert!(matches!(
        opts.effective_partition_strategy(),
        PartitionStrategy::Hash { column, n_buckets: 8 } if column == "title"
    ));
}

#[test]
fn thread_counts_are_never_zero() {
    assert_eq!(ThreadCount::Fixed(0).resolve_or_default(7), 1);
    assert_eq!(ThreadCount::Auto.resolve_or_default(7), 7);
    assert_eq!(ThreadCount::Auto.resolve_or_default(0), 1);
    assert_eq!(default_reader_thread_count(0), 1);
    assert_eq!(default_reader_thread_count(9), 9);
    assert_eq!(default_writer_thread_count(0), 1);
    assert_eq!(default_writer_thread_count(9), 5);
}

#[test]
fn builder_options_use_the_scalar_schema() {
    let b = valid().builder_options();
    let names: Vec<&str> = b.schema.iter().map(|f| f.name.as_str()).collect();
    assert_eq!(names, vec!["_id", "title"]);
    assert_eq!(b.id_column, "_id");
    assert_eq!(b.fts_columns.len(), 1);
    assert_eq!(b.vector_columns[0].dim, 16);
    assert!(b.has_tokenizer);
}

#[test]
fn metrics_have_names() {
    assert_eq!(Metric::Cosine.name(), "cosine");
    assert_eq!(Metric::L2Sq.name(), "l2sq");
    assert_eq!(Metric::NegDot.name(), "negdot");
}

#[test]
fn partitions_go_by_a_column_of_the_table() {
    let by = |column: &str| {
        let column = column.to_string();
        valid()
            .with_partition_strategy(PartitionStrategy::Hash { column, n_buckets: 4 })
            .check_partition_column()
    };
    assert!(valid().check_partition_column().is_ok());
    assert!(by("_id").is_ok());
    assert!(by("title").is_ok());
    assert!(matches!(by("ts"), Err(BuildError::PartitionColumnMissing(c)) if c == "ts"));
}
