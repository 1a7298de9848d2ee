use std::collections::BTreeSet;
use std::sync::Arc;

use supertable::error::BuildError;
use supertable::handle::{
    GcError, OptimizeError, OptimizeEvent, OptimizeStep, Supertable, WalGcError,
};
use supertable::manifest::{SuperfileEntry, VectorSummary};
use supertable::options::{
    Field, FtsConfig, Metric, SupertableConfig, SupertableOptions, ThreadCount, VectorConfig,
};
use supertable::scalar::{DataType, ScalarColumn, ScalarValue, TypeKind};
use supertable::writer::batch::{Batch, Column, VectorColumn};
use supertable::writer::buffer::{BufferedBatch, SupertableWriter};
use supertable::writer::publish::{
    disposition, new_entries, prepare_segment, publish_action, summarize_shard, summarize_terms,
    PreparedSegment, PublishAction,
};
use supertable::writer::shards::{shard_plan, Piece};

fn ty(kind: TypeKind, name: &str) -> DataType {
    DataType { kind, name: name.to_string() }
}

fn large_utf8() -> DataType {
    ty(TypeKind::LargeUtf8, "LargeUtf8")
}

fn fixed_list_f32(dim: usize) -> DataType {
    ty(
        TypeKind::FixedSizeList { float32_items: true, list_size: dim as i32 },
        &format!("FixedSizeList({} x Float32)", dim),
    )
}

fn schema_id_title() -> Vec<Field> {
    vec![Field { name: "title".to_string(), data_type: large_utf8(), nullable: false }]
}

fn schema_id_title_emb(dim: usize) -> Vec<Field> {
    vec![
        Field { name: "title".to_string(), data_type: large_utf8(), nullable: false },
        Field { name: "emb".to_string(), data_type: fixed_list_f32(dim), nullable: false },
    ]
}

fn options_id_title() -> SupertableOptions {
    SupertableOptions::new(
        schema_id_title(),
        vec![FtsConfig { column: "title".to_string() }],
        vec![],
        true,
    )
    .expect("valid options")
}

fn with_writer_threads(mut opts: SupertableOptions, n: usize) -> SupertableOptions {
    opts.writer_threads = n;
    opts
}

fn options_id_title_serial() -> SupertableOptions {
    with_writer_threads(options_id_title(), 1)
}

fn texts(xs: Vec<String>) -> Column {
    Column::Scalar(ScalarColumn {
        data_type: large_utf8(),
        values: xs.into_iter().map(|t| Some(ScalarValue::Text(t))).collect(),
    })
}

fn build_simple_batch(n: usize) -> Batch {
    let titles = (0..n).map(|i| format!("doc {i} alpha")).collect();
    Batch { schema: schema_id_title(), columns: vec![texts(titles)], rows: n }
}

/// The bytes of the ids and the texts of a batch.
fn scalar_bytes(batch: &Batch) -> usize {
    let mut n = batch.rows * 16;
    for c in &batch.columns {
        if let Column::Scalar(s) = c {
            for v in &s.values {
                if let Some(ScalarValue::Text(t)) = v {
                    n += t.len() + 8;
                }
            }
        }
    }
    n
}

/// A table in memory with its clock of ids.
struct Table {
    table: Supertable,
    next_id: i128,
}

impl Table {
    fn create(opts: SupertableOptions) -> Self {
        Table { table: Supertable::create(Arc::new(opts)), next_id: 1 << 64 }
    }

    fn append(&mut self, w: &mut SupertableWriter, batch: &Batch) -> Result<(), BuildError> {
        let ids: Vec<i128> = (0..batch.rows).map(|i| self.next_id + i as i128).collect();
        self.next_id += batch.rows as i128;
        let due = w.append(batch, ids, scalar_bytes(batch))?;
        if due {
            self.commit(w);
        }
        Ok(())
    }

    fn commit(&mut self, w: &mut SupertableWriter) {
        let opts = Arc::clone(self.table.options());
        let shards = w.commit(opts.writer_threads);
        let prepared: Vec<Option<PreparedSegment>> =
            shards.iter().map(|s| build(&opts, s)).collect();
        let entries = new_entries(&prepared);
        if publish_action(entries.len(), false) == PublishAction::Append {
            self.table.publish(entries);
        }
    }

    fn superfiles(&self) -> Vec<Arc<SuperfileEntry>> {
        self.table.manifest().superfile_list.superfiles.clone()
    }

    fn n_docs_total(&self) -> u64 {
        self.table.manifest().superfile_list.n_docs_total()
    }
}

/// The distinct words of the first text column.
fn terms_of(shard: &[BufferedBatch]) -> Vec<Vec<u8>> {
    let mut words = BTreeSet::new();
    for b in shard {
        for c in &b.columns {
            if let Column::Scalar(s) = c {
                for v in &s.values {
                    if let Some(ScalarValue::Text(t)) = v {
                        for w in t.split_whitespace() {
                            words.insert(w.to_lowercase().into_bytes());
                        }
                    }
                }
            }
        }
    }
    words.into_iter().collect()
}

/// The mean of the vectors, and the largest distance to it.
fn sphere_of(shard: &[BufferedBatch], dim: usize) -> VectorSummary {
    let flat: Vec<f32> =
        shard.iter().flat_map(|b| b.vectors[0].iter().map(|x| f32::from_bits(*x))).collect();
    let n = flat.len() / dim;
    let centre: Vec<f32> =
        (0..dim).map(|d| flat.iter().skip(d).step_by(dim).sum::<f32>() / n as f32).collect();
    let mut radius = 0.0f32;
    for row in flat.chunks(dim) {
        let d: f32 = row.iter().zip(&centre).map(|(a, b)| (a - b) * (a - b)).sum();
        radius = radius.max(d.sqrt());
    }
    VectorSummary {
        centroid: centre.iter().map(|x| x.to_bits()).collect(),
        radius: radius.to_bits(),
    }
}

fn build(opts: &SupertableOptions, shard: &[BufferedBatch]) -> Option<PreparedSegment> {
    let summary = summarize_shard(opts, shard);
    let terms = if opts.fts_columns.is_empty() { None } else { Some(vec![terms_of(shard)]) };
    let spheres = if opts.vector_columns.is_empty() {
        None
    } else {
        Some(vec![Some(sphere_of(shard, opts.vector_columns[0].dim))])
    };
    prepare_segment(opts, summary, terms, spheres, false, false)
}

#[test]
fn writer_slot_is_exclusive() {
    let mut st = Table::create(options_id_title_serial());
    let _w = st.table.writer().expect("first writer");
    let err = st.table.writer().expect_err("second writer should fail");
    assert!(matches!(err, BuildError::SupertableInUse));
}

#[test]
fn writer_slot_releases_on_drop() {
    let mut st = Table::create(options_id_title_serial());
    let w = st.table.writer().expect("first writer");
    st.table.release_writer(w);
    let _w2 = st.table.writer().expect("second writer after drop");
}

#[test]
fn append_then_commit_publishes_one_segment() {
    let mut st = Table::create(options_id_title_serial());
    let mut w = st.table.writer().expect("writer");
    st.append(&mut w, &build_simple_batch(4)).expect("append");
    st.commit(&mut w);
    assert_eq!(st.table.manifest_id(), 1);
    assert_eq!(st.superfiles().len(), 1);
    assert_eq!(st.n_docs_total(), 4);
}

#[test]
fn commit_with_empty_buffer_is_noop() {
    let mut st = Table::create(options_id_title_serial());
    let mut w = st.table.writer().expect("writer");
    st.commit(&mut w);
    assert_eq!(st.table.manifest_id(), 0, "no manifest swap on empty commit");
    assert_eq!(st.superfiles().len(), 0);
}

#[test]
fn segment_entry_records_id_range_and_n_docs() {
    let mut st = Table::create(options_id_title_serial());
    let mut w = st.table.writer().expect("writer");
    st.append(&mut w, &build_simple_batch(3)).expect("a");
    st.append(&mut w, &build_simple_batch(2)).expect("b");
    st.commit(&mut w);
    let seg = &st.superfiles()[0];
    assert_eq!(seg.n_docs, 5);
    assert!(seg.id_min > 0);
    assert!(seg.id_max > seg.id_min, "id_max should exceed id_min");
    assert_eq!(seg.id_max - seg.id_min, 4);
}

#[test]
fn segment_entry_carries_fts_summary() {
    let mut st = Table::create(options_id_title_serial());
    let mut w = st.table.writer().expect("writer");
    st.append(&mut w, &build_simple_batch(4)).expect("append");
    st.commit(&mut w);
    let seg = &st.superfiles()[0];
    let fts = seg.fts_summary.get("title").expect("title FTS summary present");
    assert!(
        fts.n_terms_distinct >= 3,
        "expected at least 3 distinct terms, got {}",
        fts.n_terms_distinct,
    );
    assert!(fts.term_bloom.contains(b"alpha"));
    assert!(fts.term_bloom.contains(b"doc"));
    assert!(!fts.term_range.0.is_empty());
    assert!(!fts.term_range.1.is_empty());
    assert!(fts.term_range.0 <= fts.term_range.1, "min_term <= max_term invariant");
    assert_eq!(fts.term_range, (b"0".to_vec(), b"doc".to_vec()));
}

#[test]
fn segment_entry_carries_scalar_bounds() {
    let mut st = Table::create(options_id_title_serial());
    let mut w = st.table.writer().expect("writer");
    st.append(&mut w, &build_simple_batch(4)).expect("append");
    st.commit(&mut w);
    let seg = &st.superfiles()[0];
    let (lo, hi) = seg.scalar_stats.cols.get("title").expect("title bounds");
    assert!(matches!(&lo.value, Some(ScalarValue::Text(t)) if t == "doc 0 alpha"));
    assert!(matches!(&hi.value, Some(ScalarValue::Text(t)) if t == "doc 3 alpha"));
    let (lo, _) = seg.scalar_stats.cols.get("_id").expect("id bounds");
    assert!(matches!(lo.value, Some(ScalarValue::Int(x)) if x == seg.id_min));
}

fn build_vector_batch(n: usize, dim: usize) -> Batch {
    let titles = (0..n).map(|i| format!("doc {i}")).collect();
    let items: Vec<Option<u32>> = (0..n * dim)
        .map(|x| Some((((x / dim + x % dim) as f32) / 100.0).to_bits()))
        .collect();
    Batch {
        schema: schema_id_title_emb(dim),
        columns: vec![
            texts(titles),
            Column::Vectors(VectorColumn {
                data_type: fixed_list_f32(dim),
                list_size: dim as i32,
                valid: vec![true; n],
                items: Some(items),
            }),
        ],
        rows: n,
    }
}

fn options_with_vector(dim: usize) -> SupertableOptions {
    with_writer_threads(
        SupertableOptions::new(
            schema_id_title_emb(dim),
            vec![],
            vec![VectorConfig {
                column: "emb".to_string(),
                dim,
                n_cent: 4,
                rot_seed: 7,
                metric: Metric::Cosine,
            }],
            false,
        )
        .expect("valid options"),
        1,
    )
}

#[test]
fn segment_entry_carries_vector_summary() {
    let dim = 16;
    let mut st = Table::create(options_with_vector(dim));
    let mut w = st.table.writer().expect("writer");
    st.append(&mut w, &build_vector_batch(8, dim)).expect("append");
    st.commit(&mut w);
    let seg = &st.superfiles()[0];
    let vs = seg.vector_summary.get("emb").expect("emb vector summary present");
    assert_eq!(vs.centroid.len(), dim);
    assert!(f32::from_bits(vs.radius) >= 0.0);
}

#[test]
fn commit_produces_one_segment_per_writer_pool_thread() {
    for n_threads in [1usize, 2, 4] {
        let mut st = Table::create(with_writer_threads(options_id_title(), n_threads));
        let mut w = st.table.writer().expect("writer");
        for _ in 0..n_threads * 2 {
            st.append(&mut w, &build_simple_batch(3)).expect("append");
        }
        st.commit(&mut w);
        assert_eq!(
            st.superfiles().len(),
            n_threads,
            "expected {n_threads} superfiles for {n_threads}-thread pool",
        );
        assert_eq!(st.n_docs_total(), (n_threads * 2 * 3) as u64);
    }
}

#[test]
fn commit_with_fewer_batches_than_threads_skips_empty_shards() {
    let mut st = Table::create(with_writer_threads(options_id_title(), 4));
    let mut w = st.table.writer().expect("writer");
    st.append(&mut w, &build_simple_batch(1)).expect("a");
    st.append(&mut w, &build_simple_batch(1)).expect("b");
    st.commit(&mut w);
    assert_eq!(st.superfiles().len(), 2);
    assert_eq!(st.n_docs_total(), 2);
}

#[test]
fn apply_config_with_fixed_writer_threads_emits_that_many_segments() {
    let cfg = SupertableConfig {
        reader_threads: ThreadCount::Fixed(1),
        writer_threads: ThreadCount::Fixed(4),
        commit_threshold_size_mb: 1024,
        verify_crc_on_open: true,
        id_column: "_id".to_string(),
    };
    let opts = options_id_title().apply_config(&cfg).expect("apply_config");
    let mut st = Table::create(opts);
    let mut w = st.table.writer().expect("writer");
    for _ in 0..8u64 {
        st.append(&mut w, &build_simple_batch(3)).expect("append");
    }
    st.commit(&mut w);
    assert_eq!(st.superfiles().len(), 4, "writer_threads=4 should yield 4 shards");
    assert_eq!(st.n_docs_total(), 24);
}

#[test]
fn append_auto_flushes_when_buffer_crosses_threshold() {
    let opts = options_id_title_serial().with_commit_threshold_size_mb(1);
    let mut st = Table::create(opts);
    let mut w = st.table.writer().expect("writer");
    st.append(&mut w, &build_simple_batch(50_000)).expect("append");
    assert_eq!(st.table.manifest_id(), 1, "auto-flush should fire");
    assert_eq!(w.buffered_batches(), 0, "buffer drained on auto-flush");
    assert_eq!(w.buffered_bytes(), 0);
    st.commit(&mut w);
    assert_eq!(st.table.manifest_id(), 1);
}

#[test]
fn append_does_not_auto_flush_when_threshold_zero() {
    let opts = options_id_title_serial().with_commit_threshold_size_mb(0);
    let mut st = Table::create(opts);
    let mut w = st.table.writer().expect("writer");
    st.append(&mut w, &build_simple_batch(50_000)).expect("append");
    assert_eq!(st.table.manifest_id(), 0, "no auto-flush at threshold=0");
    assert!(w.buffered_batches() > 0);
}

#[test]
fn each_commit_appends_to_existing_segments() {
    let mut st = Table::create(options_id_title_serial());
    let mut w = st.table.writer().expect("writer");
    st.append(&mut w, &build_simple_batch(2)).expect("a1");
    st.commit(&mut w);
    st.append(&mut w, &build_simple_batch(3)).expect("a2");
    st.commit(&mut w);
    st.append(&mut w, &build_simple_batch(1)).expect("a3");
    st.commit(&mut w);
    assert_eq!(st.table.manifest_id(), 3);
    assert_eq!(st.superfiles().len(), 3);
    assert_eq!(st.n_docs_total(), 6);
}

#[test]
fn a_batch_of_another_schema_is_refused_and_buffers_nothing() {
    let mut st = Table::create(options_id_title_serial());
    let mut w = st.table.writer().expect("writer");
    let err = st.append(&mut w, &build_vector_batch(2, 16)).expect_err("another schema");
    assert!(matches!(err, BuildError::BatchSchemaMismatch));
    assert_eq!(w.buffered_batches(), 0);
}

#[test]
fn bytes_of_vectors_count() {
    let mut st = Table::create(options_with_vector(16));
    let mut w = st.table.writer().expect("writer");
    let batch = build_vector_batch(8, 16);
    let scalar = scalar_bytes(&batch);
    st.append(&mut w, &batch).expect("append");
    assert_eq!(w.buffered_bytes(), scalar + 8 * 16 * 4);
}

#[test]
fn shards_cut_batches_and_keep_every_row() {
    let plan = shard_plan(&[5, 1, 4], 3);
    assert_eq!(
        plan,
        vec![
            vec![Piece { batch: 0, start: 0, len: 4 }],
            vec![
                Piece { batch: 0, start: 4, len: 1 },
                Piece { batch: 1, start: 0, len: 1 },
                Piece { batch: 2, start: 0, len: 1 },
            ],
            vec![Piece { batch: 2, start: 1, len: 3 }],
        ]
    );
    let all: usize = plan.iter().flatten().map(|p| p.len).sum();
    assert_eq!(all, 10);
    assert_eq!(shard_plan(&[2], 4).len(), 2);
    assert!(shard_plan(&[], 4).is_empty());
}

#[test]
fn rows_of_a_cut_batch_keep_their_ids_and_vectors() {
    let dim = 16;
    let mut st = Table::create(with_writer_threads(options_with_vector(dim), 3));
    let mut w = st.table.writer().expect("writer");
    let batch = build_vector_batch(7, dim);
    w.append(&batch, (100..107).collect(), scalar_bytes(&batch)).expect("append");
    let shards = w.commit(3);
    let ids: Vec<i128> = shards.iter().flatten().flat_map(|b| b.ids.clone()).collect();
    assert_eq!(ids, (100..107).collect::<Vec<i128>>());
    let vectors: Vec<u32> =
        shards.iter().flatten().flat_map(|b| b.vectors[0].clone()).collect();
    let all: Vec<u32> = (0..7 * dim)
        .map(|x| (((x / dim + x % dim) as f32) / 100.0).to_bits())
        .collect();
    assert_eq!(vectors, all);
}

#[test]
fn summaries_admit_their_terms() {
    let terms: Vec<Vec<u8>> = vec![b"apple".to_vec(), b"berry".to_vec(), b"zest".to_vec()];
    let s = summarize_terms(&terms);
    assert_eq!(s.n_terms_distinct, 3);
    assert_eq!(s.term_range, (b"apple".to_vec(), b"zest".to_vec()));
    for t in &terms {
        assert!(s.term_bloom.contains(t));
    }
    let none = summarize_terms(&Vec::new());
    assert_eq!(none.n_terms_distinct, 0);
    assert_eq!(none.term_range, (Vec::new(), Vec::new()));
}

#[test]
fn bytes_of_a_new_superfile_are_kept_somewhere() {
    let d = disposition(false, false);
    assert!(d.store && !d.storage && !d.cache);
    let d = disposition(true, false);
    assert!(d.store && d.storage && !d.cache);
    let d = disposition(true, true);
    assert!(!d.store && d.storage && d.cache);
    assert_eq!(publish_action(0, true), PublishAction::Nothing);
    assert_eq!(publish_action(2, true), PublishAction::Persist);
    assert_eq!(publish_action(2, false), PublishAction::Append);
}

#[test]
fn optimizing_goes_on_without_storage() {
    let step = Supertable::optimize;
    assert!(matches!(step(OptimizeEvent::Start), Ok(OptimizeStep::Compact)));
    assert!(matches!(step(OptimizeEvent::Compacted(Ok(()))), Ok(OptimizeStep::Gc)));
    assert!(matches!(
        step(OptimizeEvent::Compacted(Err("boom".to_string()))),
        Err(OptimizeError::Compact(_))
    ));
    assert!(matches!(
        step(OptimizeEvent::Swept(Err(GcError::NoStorage))),
        Ok(OptimizeStep::WalGc)
    ));
    assert!(matches!(
        step(OptimizeEvent::Swept(Err(GcError::Failed("boom".to_string())))),
        Err(OptimizeError::Gc(_))
    ));
    assert!(matches!(
        step(OptimizeEvent::WalSwept(Err(WalGcError::NoStorageAttached))),
        Ok(OptimizeStep::Done)
    ));
}
