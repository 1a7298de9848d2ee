use supertable::error::BuildError;
use supertable::options::{Field, FtsConfig, Metric, SupertableOptions, VectorConfig};
use supertable::scalar::{DataType, ScalarColumn, ScalarValue, TypeKind};
use supertable::writer::batch::{split_vectors, Batch, Column, VectorColumn};

fn ty(kind: TypeKind, name: &str) -> DataType {
    DataType { kind, name: name.to_string() }
}

fn fixed_list_f32(dim: usize) -> DataType {
    ty(
        TypeKind::FixedSizeList { float32_items: true, list_size: dim as i32 },
        &format!("FixedSizeList({} x Float32)", dim),
    )
}

fn field(name: &str, data_type: DataType, nullable: bool) -> Field {
    Field { name: name.to_string(), data_type, nullable }
}

fn large_utf8() -> DataType {
    ty(TypeKind::LargeUtf8, "LargeUtf8")
}

fn uint64() -> DataType {
    ty(TypeKind::UInt64, "UInt64")
}

fn schema_id_title_emb(dim: usize) -> Vec<Field> {
    vec![field("title", large_utf8(), false), field("emb", fixed_list_f32(dim), false)]
}

fn vc(name: &str, dim: usize) -> VectorConfig {
    VectorConfig {
        column: name.to_string(),
        dim,
        n_cent: 4,
        rot_seed: 0,
        metric: Metric::Cosine,
    }
}

fn fc(name: &str) -> FtsConfig {
    FtsConfig { column: name.to_string() }
}

fn titles(texts: &[&str]) -> Column {
    Column::Scalar(ScalarColumn {
        data_type: large_utf8(),
        values: texts.iter().map(|t| Some(ScalarValue::Text(t.to_string()))).collect(),
    })
}

fn numbers(xs: &[i128]) -> Column {
    Column::Scalar(ScalarColumn {
        data_type: uint64(),
        values: xs.iter().map(|x| Some(ScalarValue::Int(*x))).collect(),
    })
}

fn build_fsl(flat: Vec<f32>, dim: usize) -> Column {
    Column::Vectors(VectorColumn {
        data_type: fixed_list_f32(dim),
        list_size: dim as i32,
        valid: vec![true; flat.len() / dim],
        items: Some(flat.into_iter().map(|x| Some(x.to_bits())).collect()),
    })
}

fn build_batch(schema: Vec<Field>, n: usize, dim: usize) -> Batch {
    let texts: Vec<String> = (0..n).map(|i| format!("doc {i}")).collect();
    let texts: Vec<&str> = texts.iter().map(|s| s.as_str()).collect();
    let flat: Vec<f32> = (0..n * dim).map(|x| x as f32).collect();
    Batch { schema, columns: vec![titles(&texts), build_fsl(flat, dim)], rows: n }
}

fn options(dim: usize) -> SupertableOptions {
    SupertableOptions::new(
        schema_id_title_emb(dim),
        vec![fc("title")],
        vec![vc("emb", dim)],
        true,
    )
    .expect("valid options")
}

fn names(batch: &Batch, places: &[usize]) -> Vec<String> {
    places.iter().map(|i| batch.schema[*i].name.clone()).collect()
}

#[test]
fn split_extracts_vectors_and_drops_columns() {
    let dim = 16;
    let batch = build_batch(schema_id_title_emb(dim), 4, dim);
    let split = split_vectors(&batch, &options(dim)).expect("split should succeed");
    assert_eq!(names(&batch, &split.scalar), vec!["title"]);
    assert_eq!(split.rows, 4);
    assert_eq!(split.scalar.len(), 1);
    assert_eq!(split.vectors.len(), 1);
    assert_eq!(split.vectors[0].len(), 4 * dim);
    assert_eq!(f32::from_bits(split.vectors[0][2 * dim + 3]), 35.0);
}

#[test]
fn split_rejects_batch_with_wrong_schema() {
    let dim = 16;
    let other = Batch {
        schema: vec![field("emb", fixed_list_f32(dim), false)],
        columns: vec![build_fsl(vec![0.0; 2 * dim], dim)],
        rows: 2,
    };
    let err = split_vectors(&other, &options(dim)).expect_err("expected error");
    assert!(matches!(err, BuildError::BatchSchemaMismatch));
}

fn nullable_options(dim: usize) -> SupertableOptions {
    let schema =
        vec![field("title", large_utf8(), false), field("emb", fixed_list_f32(dim), true)];
    SupertableOptions::new(schema, vec![fc("title")], vec![vc("emb", dim)], true)
        .expect("valid options")
}

fn batch_with_nulls(valid: Vec<bool>, items: Vec<Option<u32>>, dim: usize) -> Batch {
    let n = valid.len();
    let texts = vec!["a"; n];
    Batch {
        schema: vec![
            field("title", large_utf8(), false),
            field("emb", fixed_list_f32(dim), true),
        ],
        columns: vec![
            titles(&texts),
            Column::Vectors(VectorColumn {
                data_type: fixed_list_f32(dim),
                list_size: dim as i32,
                valid,
                items: Some(items),
            }),
        ],
        rows: n,
    }
}

#[test]
fn split_rejects_null_vector_row() {
    let dim = 16;
    let batch = batch_with_nulls(vec![true, false, true], vec![Some(0); 3 * dim], dim);
    match split_vectors(&batch, &nullable_options(dim)).expect_err("expected error") {
        BuildError::VectorColumnHasNulls { column, first_nulls } => {
            assert_eq!(column, "emb");
            assert_eq!(first_nulls, vec![1]);
        }
        other => panic!("expected VectorColumnHasNulls, got {:?}", other),
    }
}

#[test]
fn split_succeeds_with_zero_vector_columns() {
    let schema = vec![field("title", large_utf8(), false)];
    let opts = SupertableOptions::new(schema.clone(), vec![fc("title")], vec![], true)
        .expect("valid options");
    let batch = Batch { schema, columns: vec![titles(&["x", "y"])], rows: 2 };
    let split = split_vectors(&batch, &opts).expect("split should succeed");
    assert_eq!(split.rows, 2);
    assert_eq!(split.scalar, vec![0]);
    assert_eq!(split.vectors.len(), 0);
}

#[test]
fn split_preserves_scalar_column_order() {
    let schema = vec![
        field("a", uint64(), false),
        field("emb", fixed_list_f32(16), false),
        field("b", uint64(), false),
        field("other", fixed_list_f32(16), false),
        field("c", uint64(), false),
    ];
    let opts = SupertableOptions::new(
        schema.clone(),
        vec![],
        vec![vc("emb", 16), vc("other", 16)],
        false,
    )
    .expect("valid options");
    let n = 2;
    let dim = 16;
    let batch = Batch {
        schema,
        columns: vec![
            numbers(&[10, 20]),
            build_fsl(vec![0.0; n * dim], dim),
            numbers(&[30, 40]),
            build_fsl(vec![1.0; n * dim], dim),
            numbers(&[50, 60]),
        ],
        rows: n,
    };
    let split = split_vectors(&batch, &opts).expect("split should succeed");
    assert_eq!(names(&batch, &split.scalar), vec!["a", "b", "c"]);
    assert_eq!(split.vectors.len(), 2);
    assert_eq!(split.vectors[0].len(), n * dim);
    assert_eq!(split.vectors[1].len(), n * dim);
    assert_eq!(f32::from_bits(split.vectors[0][0]), 0.0);
    assert_eq!(f32::from_bits(split.vectors[1][0]), 1.0);
}

#[test]
fn null_items_inside_a_vector_are_refused() {
    let dim = 16;
    let mut items = vec![Some(0u32); 2 * dim];
    items[dim + 3] = None;
    let batch = batch_with_nulls(vec![true, true], items, dim);
    let err = split_vectors(&batch, &nullable_options(dim)).expect_err("expected error");
    assert!(matches!(err, BuildError::VectorColumnHasNulls { .. }), "got {:?}", err);
}

#[test]
fn only_the_first_null_rows_are_named() {
    let dim = 16;
    let rows = 12;
    let batch = batch_with_nulls(vec![false; rows], vec![Some(0); rows * dim], dim);
    match split_vectors(&batch, &nullable_options(dim)).expect_err("expected error") {
        BuildError::VectorColumnHasNulls { first_nulls, .. } => {
            assert!(first_nulls.len() < rows);
            assert_eq!(first_nulls[0], 0);
        }
        other => panic!("expected VectorColumnHasNulls, got {:?}", other),
    }
}
