//! Rows that are appended but not committed, and the shards that a commit
//! makes of them.

use std::sync::Arc;
use vstd::prelude::*;

use crate::error::{BuildError, BuildErrorView};
use crate::options::{
    first_at, schema_view, vector_names, without_names, Field, FieldView, SupertableOptions,
    SupertableOptionsView, VectorConfigView,
};
use crate::scalar::{column_values, opt_value, ColumnView, ScalarColumn, ScalarValue, ValueView};
use crate::writer::batch::{
    all_vectors, cells_rows, cells_type, cells_views, columns_are_found_at_their_place,
    columns_named, fits_field, split_vectors, vector_lists, Batch, CellsView, Column, VectorColumn,
};
use crate::writer::plan::indices;
use crate::writer::shards::{
    flat_rows, lemma_shard_pieces_within, piece_rows, piece_within, rows_between, rows_from,
    shard_count, shard_pieces, shard_plan, sharded_rows, shards_hold_all_rows, total_rows, Piece,
};

verus! {

// ---------------------------------------------------------------- slices

/// That the items of a list column are those of its rows.
pub open spec fn cells_sound(c: CellsView) -> bool {
    match c {
        CellsView::Scalar(_) => true,
        CellsView::Vectors { list_size, valid, items, .. } => list_size >= 0 && (
        items matches Some(v) ==> v.len() == valid.len() * list_size),
    }
}

/// Some rows of a column.
pub open spec fn cells_slice(c: CellsView, start: int, len: int) -> CellsView {
    match c {
        CellsView::Scalar(s) => CellsView::Scalar(
            ColumnView { data_type: s.data_type, values: s.values.subrange(start, start + len) },
        ),
        CellsView::Vectors { data_type, list_size, valid, items } => CellsView::Vectors {
            data_type,
            list_size,
            valid: valid.subrange(start, start + len),
            items: match items {
                Some(v) => Some(v.subrange(start * list_size, (start + len) * list_size)),
                None => None,
            },
        },
    }
}

fn slice_values(values: &Vec<Option<ScalarValue>>, start: usize, len: usize) -> (r: Vec<
    Option<ScalarValue>,
>)
    requires
        start + len <= values@.len(),
    ensures
        column_values(r@) == column_values(values@).subrange(start as int, start + len),
{
    let mut out: Vec<Option<ScalarValue>> = Vec::new();
    let n: usize = values.len();
    let mut i: usize = 0;
    while i < len
        invariant
            i <= len,
            n == values@.len(),
            start + len <= n,
            out@.len() == i,
            forall|k: int| 0 <= k < i ==> opt_value(#[trigger] out@[k]) == opt_value(values@[start + k]),
        decreases len - i,
    {
        let v = match &values[start + i] {
            Some(x) => Some(x.clone()),
            None => None,
        };
        out.push(v);
        i = i + 1;
    }
    assert(column_values(out@) =~= column_values(values@).subrange(start as int, start + len));
    out
}

fn slice_of<T: Copy>(s: &Vec<T>, start: usize, len: usize) -> (r: Vec<T>)
    requires
        start + len <= s@.len(),
    ensures
        r@ == s@.subrange(start as int, start + len),
{
    let mut out: Vec<T> = Vec::new();
    let n: usize = s.len();
    let mut i: usize = 0;
    while i < len
        invariant
            i <= len,
            n == s@.len(),
            start + len <= n,
            out@ == s@.subrange(start as int, start + i),
        decreases len - i,
    {
        out.push(s[start + i]);
        i = i + 1;
        assert(s@.subrange(start as int, start + i) =~= s@.subrange(
            start as int,
            start + i - 1,
        ).push(s@[start + i - 1]));
    }
    out
}

proof fn lemma_rows_times(start: int, len: int, rows: int, size: int)
    requires
        0 <= start,
        0 <= len,
        start + len <= rows,
        0 <= size,
    ensures
        0 <= start * size,
        0 <= len * size,
        start * size + len * size == (start + len) * size,
        start * size + len * size <= rows * size,
{
    assert(0 <= start * size) by (nonlinear_arith)
        requires
            0 <= start,
            0 <= size,
    ;
    assert(0 <= len * size) by (nonlinear_arith)
        requires
            0 <= len,
            0 <= size,
    ;
    assert(start * size + len * size == (start + len) * size) by (nonlinear_arith);
    assert((start + len) * size <= rows * size) by (nonlinear_arith)
        requires
            start + len <= rows,
            0 <= size,
    ;
}

impl Column {
    /// A copy of some rows of the column.
    pub fn slice(&self, start: usize, len: usize) -> (r: Column)
        requires
            cells_sound(self@),
            start + len <= cells_rows(self@),
        ensures
            r@ == cells_slice(self@, start as int, len as int),
            cells_sound(r@),
            cells_rows(r@) == len,
            cells_type(r@) == cells_type(self@),
    {
        match self {
            Column::Scalar(c) => {
                let r = Column::Scalar(
                    ScalarColumn {
                        data_type: c.data_type.clone(),
                        values: slice_values(&c.values, start, len),
                    },
                );
                r
            },
            Column::Vectors(c) => {
                let size: usize = c.list_size as usize;
                let items = match &c.items {
                    Some(v) => {
                        let n: usize = v.len();
                        proof {
                            lemma_rows_times(
                                start as int,
                                len as int,
                                c.valid@.len() as int,
                                size as int,
                            );
                        }
                        Some(slice_of(v, start * size, len * size))
                    },
                    None => None,
                };
                Column::Vectors(
                    VectorColumn {
                        data_type: c.data_type.clone(),
                        list_size: c.list_size,
                        valid: slice_of(&c.valid, start, len),
                        items,
                    },
                )
            },
        }
    }
}

// ---------------------------------------------------------------- buffered batches

/// One appended batch: the ids that its rows were given, its other columns but
/// for the vectors, and its vectors.
#[derive(Debug)]
pub struct BufferedBatch {
    pub ids: Vec<i128>,
    pub columns: Vec<Column>,
    pub vectors: Vec<Vec<u32>>,
}

pub struct BufferedView {
    pub ids: Seq<i128>,
    pub columns: Seq<CellsView>,
    pub vectors: Seq<Seq<u32>>,
}

impl View for BufferedBatch {
    type V = BufferedView;

    open spec fn view(&self) -> BufferedView {
        BufferedView {
            ids: self.ids@,
            columns: cells_views(self.columns@),
            vectors: vector_lists(self.vectors@),
        }
    }
}

/// The batches that a list holds.
pub open spec fn buffer_views(s: Seq<BufferedBatch>) -> Seq<BufferedView> {
    Seq::new(s.len(), |i: int| s[i]@)
}

/// That every column has a value, and every vector column a vector, for every
/// id.
pub open spec fn buffered_sound(b: BufferedView, dims: Seq<usize>) -> bool {
    &&& forall|i: int|
        0 <= i < b.columns.len() ==> cells_sound(#[trigger] b.columns[i]) && cells_rows(
            b.columns[i],
        ) == b.ids.len()
    &&& b.vectors.len() == dims.len()
    &&& forall|i: int|
        0 <= i < b.vectors.len() ==> (#[trigger] b.vectors[i]).len() == b.ids.len() * dims[i]
}

/// That this holds of all batches of a list.
pub open spec fn buffer_sound(s: Seq<BufferedView>, dims: Seq<usize>) -> bool {
    forall|i: int| 0 <= i < s.len() ==> buffered_sound(#[trigger] s[i], dims)
}

/// Some rows of a batch.
pub open spec fn buffered_slice(b: BufferedView, dims: Seq<usize>, p: Piece) -> BufferedView {
    BufferedView {
        ids: b.ids.subrange(p.start as int, p.start + p.len),
        columns: Seq::new(
            b.columns.len(),
            |i: int| cells_slice(b.columns[i], p.start as int, p.len as int),
        ),
        vectors: Seq::new(
            b.vectors.len(),
            |i: int| b.vectors[i].subrange(p.start * dims[i], (p.start + p.len) * dims[i]),
        ),
    }
}

fn slice_batch(b: &BufferedBatch, dims: &[usize], p: Piece) -> (r: BufferedBatch)
    requires
        buffered_sound(b@, dims@),
        p.start + p.len <= b@.ids.len(),
    ensures
        r@ == buffered_slice(b@, dims@, p),
        buffered_sound(r@, dims@),
{
    let ids = slice_of(&b.ids, p.start, p.len);
    let mut columns: Vec<Column> = Vec::new();
    let mut i: usize = 0;
    while i < b.columns.len()
        invariant
            i <= b.columns@.len(),
            buffered_sound(b@, dims@),
            p.start + p.len <= b@.ids.len(),
            columns@.len() == i,
            forall|k: int|
                0 <= k < i ==> (#[trigger] columns@[k])@ == cells_slice(
                    b@.columns[k],
                    p.start as int,
                    p.len as int,
                ) && cells_sound(columns@[k]@) && cells_rows(columns@[k]@) == p.len,
        decreases b.columns@.len() - i,
    {
        assert(b@.columns[i as int] == b.columns@[i as int]@);
        columns.push(b.columns[i].slice(p.start, p.len));
        i = i + 1;
    }
    let mut vectors: Vec<Vec<u32>> = Vec::new();
    let mut j: usize = 0;
    while j < b.vectors.len()
        invariant
            j <= b.vectors@.len(),
            buffered_sound(b@, dims@),
            p.start + p.len <= b@.ids.len(),
            vectors@.len() == j,
            forall|k: int|
                0 <= k < j ==> (#[trigger] vectors@[k])@ == b@.vectors[k].subrange(
                    p.start * dims@[k],
                    (p.start + p.len) * dims@[k],
                ) && vectors@[k]@.len() == p.len * dims@[k],
        decreases b.vectors@.len() - j,
    {
        let dim: usize = dims[j];
        let n: usize = b.vectors[j].len();
        proof {
            assert(b@.vectors[j as int] == b.vectors@[j as int]@);
            lemma_rows_times(p.start as int, p.len as int, b@.ids.len() as int, dim as int);
        }
        vectors.push(slice_of(&b.vectors[j], p.start * dim, p.len * dim));
        j = j + 1;
    }
    let r = BufferedBatch { ids, columns, vectors };
    assert(r@.columns =~= buffered_slice(b@, dims@, p).columns);
    assert(r@.vectors =~= buffered_slice(b@, dims@, p).vectors);
    r
}

/// The rows of each batch.
pub open spec fn row_counts(s: Seq<BufferedView>) -> Seq<usize> {
    Seq::new(s.len(), |i: int| s[i].ids.len() as usize)
}

fn count_rows(buffer: &Vec<BufferedBatch>) -> (r: Vec<usize>)
    ensures
        r@ == row_counts(buffer_views(buffer@)),
        forall|i: int| 0 <= i < r@.len() ==> #[trigger] r@[i] == buffer@[i]@.ids.len(),
{
    let mut out: Vec<usize> = Vec::new();
    let mut i: usize = 0;
    while i < buffer.len()
        invariant
            i <= buffer@.len(),
            out@.len() == i,
            forall|k: int| 0 <= k < i ==> #[trigger] out@[k] == buffer@[k]@.ids.len(),
        decreases buffer@.len() - i,
    {
        out.push(buffer[i].ids.len());
        i = i + 1;
    }
    assert(out@ =~= row_counts(buffer_views(buffer@)));
    out
}

/// That the shards are made of these pieces of the batches.
pub open spec fn shards_of(
    shards: Seq<Vec<BufferedBatch>>,
    buffer: Seq<BufferedView>,
    dims: Seq<usize>,
    n_shards: nat,
) -> bool {
    let rows = row_counts(buffer);
    &&& shards.len() == shard_count(total_rows(rows), n_shards)
    &&& forall|i: int|
        0 <= i < shards.len() ==> shard_made(
            #[trigger] shards[i]@,
            buffer,
            dims,
            shard_pieces(rows, n_shards, i as nat),
        )
}

/// That the shard is made of these pieces of the batches.
pub open spec fn shard_made(
    shard: Seq<BufferedBatch>,
    buffer: Seq<BufferedView>,
    dims: Seq<usize>,
    pieces: Seq<Piece>,
) -> bool {
    &&& shard.len() == pieces.len()
    &&& forall|j: int|
        0 <= j < shard.len() ==> (#[trigger] shard[j])@ == buffered_slice(
            buffer[pieces[j].batch as int],
            dims,
            pieces[j],
        )
}

/// The rows of the batches, cut into shards of about the same size. Shards
/// without rows are left out.
pub fn split_buffer_into_row_shards(
    buffer: &Vec<BufferedBatch>,
    n_shards: usize,
    vector_dims: &[usize],
) -> (r: Vec<Vec<BufferedBatch>>)
    requires
        n_shards > 0,
        buffer_sound(buffer_views(buffer@), vector_dims@),
        total_rows(row_counts(buffer_views(buffer@))) <= usize::MAX,
    ensures
        shards_of(r@, buffer_views(buffer@), vector_dims@, n_shards as nat),
        forall|i: int, j: int|
            0 <= i < r@.len() && 0 <= j < r@[i]@.len() ==> buffered_sound(
                (#[trigger] r@[i]@[j])@,
                vector_dims@,
            ),
{
    let ghost v = buffer_views(buffer@);
    let rows = count_rows(buffer);
    let plan = shard_plan(rows.as_slice(), n_shards);
    let mut shards: Vec<Vec<BufferedBatch>> = Vec::new();
    let mut i: usize = 0;
    while i < plan.len()
        invariant
            i <= plan@.len(),
            v == buffer_views(buffer@),
            buffer_sound(v, vector_dims@),
            rows@ == row_counts(v),
            forall|k: int| 0 <= k < rows@.len() ==> #[trigger] rows@[k] == buffer@[k]@.ids.len(),
            rows@.len() == buffer@.len(),
            forall|a: int, b: int|
                0 <= a < plan@.len() && 0 <= b < plan@[a]@.len() ==> piece_within(
                    #[trigger] plan@[a]@[b],
                    rows@,
                ),
            shards@.len() == i,
            forall|k: int|
                0 <= k < i ==> shard_made(
                    #[trigger] shards@[k]@,
                    v,
                    vector_dims@,
                    plan@[k]@,
                ),
            forall|a: int, b: int|
                0 <= a < shards@.len() && 0 <= b < shards@[a]@.len() ==> buffered_sound(
                    (#[trigger] shards@[a]@[b])@,
                    vector_dims@,
                ),
        decreases plan@.len() - i,
    {
        let mut shard: Vec<BufferedBatch> = Vec::new();
        let mut j: usize = 0;
        while j < plan[i].len()
            invariant
                i < plan@.len(),
                j <= plan@[i as int]@.len(),
                v == buffer_views(buffer@),
                buffer_sound(v, vector_dims@),
                forall|k: int|
                    0 <= k < rows@.len() ==> #[trigger] rows@[k] == buffer@[k]@.ids.len(),
                rows@.len() == buffer@.len(),
                forall|a: int, b: int|
                    0 <= a < plan@.len() && 0 <= b < plan@[a]@.len() ==> piece_within(
                        #[trigger] plan@[a]@[b],
                        rows@,
                    ),
                shard@.len() == j,
                forall|k: int|
                    0 <= k < j ==> (#[trigger] shard@[k])@ == buffered_slice(
                        v[plan@[i as int]@[k].batch as int],
                        vector_dims@,
                        plan@[i as int]@[k],
                    ) && buffered_sound(shard@[k]@, vector_dims@),
            decreases plan@[i as int]@.len() - j,
        {
            let p: Piece = plan[i][j];
            assert(piece_within(plan@[i as int]@[j as int], rows@));
            assert(v[p.batch as int] == buffer@[p.batch as int]@);
            shard.push(slice_batch(&buffer[p.batch], vector_dims, p));
            j = j + 1;
        }
        shards.push(shard);
        i = i + 1;
    }
    proof {
        assert forall|k: int| 0 <= k < shards@.len() implies shard_made(
            #[trigger] shards@[k]@,
            v,
            vector_dims@,
            shard_pieces(rows@, n_shards as nat, k as nat),
        ) by {
            assert(plan@[k]@ == shard_pieces(rows@, n_shards as nat, k as nat));
        }
    }
    shards
}

// ---------------------------------------------------------------- the writer

/// The one writer of a table: rows that are appended and not committed.
#[derive(Debug)]
pub struct SupertableWriter {
    options: Arc<SupertableOptions>,
    buffer: Vec<BufferedBatch>,
    buffer_bytes: usize,
}

pub struct WriterView {
    pub options: SupertableOptionsView,
    pub buffer: Seq<BufferedView>,
    pub bytes: nat,
}

impl View for SupertableWriter {
    type V = WriterView;

    closed spec fn view(&self) -> WriterView {
        WriterView {
            options: self.options@,
            buffer: buffer_views(self.buffer@),
            bytes: self.buffer_bytes as nat,
        }
    }
}

/// The sizes of the vectors.
pub open spec fn dims_of(vcs: Seq<VectorConfigView>) -> Seq<usize> {
    Seq::new(vcs.len(), |i: int| vcs[i].dim)
}

/// The bytes of a batch's vectors.
pub open spec fn vectors_bytes(vectors: Seq<Seq<u32>>) -> nat
    decreases vectors.len(),
{
    if vectors.len() == 0 {
        0
    } else {
        vectors_bytes(vectors.drop_last()) + 4 * vectors.last().len()
    }
}

/// Bytes of a mebibyte.
pub const MEBIBYTE: u64 = 1048576;

/// That so many buffered bytes are to be committed. A threshold of zero means
/// never.
pub open spec fn commit_due(bytes: nat, threshold_mb: u64) -> bool {
    threshold_mb > 0 && (bytes >= threshold_mb * MEBIBYTE || bytes >= usize::MAX)
}

fn is_commit_due(bytes: usize, threshold_mb: u64) -> (r: bool)
    ensures
        r == commit_due(bytes as nat, threshold_mb),
{
    if threshold_mb == 0 {
        return false;
    }
    let unit: u128 = MEBIBYTE as u128;
    assert(threshold_mb * unit <= u64::MAX * 1048576) by (nonlinear_arith)
        requires
            unit == 1048576,
            threshold_mb <= u64::MAX,
    ;
    let threshold: u128 = threshold_mb as u128 * unit;
    bytes as u128 >= threshold || bytes == usize::MAX
}

/// What a batch leaves in the buffer. `fields` are the scalar fields of the
/// table without the id.
pub open spec fn buffered_of(
    schema: Seq<FieldView>,
    columns: Seq<CellsView>,
    fields: Seq<FieldView>,
    ids: Seq<i128>,
    vectors: Seq<Seq<u32>>,
) -> BufferedView {
    let picked = columns_named(schema, fields);
    BufferedView {
        ids,
        columns: Seq::new(picked.len(), |i: int| columns[picked[i]]),
        vectors,
    }
}

/// That the columns that were picked fit the fields.
pub open spec fn picked_fit(
    schema: Seq<FieldView>,
    columns: Seq<CellsView>,
    fields: Seq<FieldView>,
) -> bool {
    let picked = columns_named(schema, fields);
    forall|i: int| 0 <= i < fields.len() ==> fits_field(columns[picked[i]], #[trigger] fields[i])
}

/// What an append leaves in the buffer, or its error.
pub open spec fn appended(
    o: SupertableOptionsView,
    schema: Seq<FieldView>,
    columns: Seq<CellsView>,
    ids: Seq<i128>,
) -> Result<BufferedView, BuildErrorView> {
    let fields = without_names(o.schema, vector_names(o.vector_columns));
    if schema != o.schema {
        Err(BuildErrorView::BatchSchemaMismatch)
    } else {
        match all_vectors(schema, columns, o.vector_columns) {
            Err(e) => Err(e),
            Ok(v) => if picked_fit(schema, columns, fields) {
                Ok(buffered_of(schema, columns, fields, ids, v))
            } else {
                Err(BuildErrorView::BatchSchemaMismatch)
            },
        }
    }
}

/// The bytes that the vectors of a batch take.
pub open spec fn batch_vector_bytes(dims: Seq<usize>, rows: nat) -> nat
    decreases dims.len(),
{
    if dims.len() == 0 {
        0
    } else {
        batch_vector_bytes(dims.drop_last(), rows) + 4 * (rows * dims.last() as nat)
    }
}

proof fn lemma_vectors_bytes(vectors: Seq<Seq<u32>>, dims: Seq<usize>, rows: nat)
    requires
        vectors.len() == dims.len(),
        forall|i: int|
            0 <= i < vectors.len() ==> (#[trigger] vectors[i]).len() == rows * dims[i],
    ensures
        vectors_bytes(vectors) == batch_vector_bytes(dims, rows),
    decreases vectors.len(),
{
    if vectors.len() > 0 {
        assert forall|i: int| 0 <= i < vectors.drop_last().len() implies (
        #[trigger] vectors.drop_last()[i]).len() == rows * dims.drop_last()[i] by {
            assert(vectors.drop_last()[i] == vectors[i]);
        }
        lemma_vectors_bytes(vectors.drop_last(), dims.drop_last(), rows);
        assert(vectors.last() == vectors[vectors.len() - 1]);
    }
}

proof fn lemma_vectors_bytes_grow(vectors: Seq<Seq<u32>>, m: int)
    requires
        0 <= m <= vectors.len(),
    ensures
        vectors_bytes(vectors.take(m)) <= vectors_bytes(vectors),
    decreases vectors.len() - m,
{
    if m < vectors.len() {
        assert(vectors.take(m + 1).drop_last() =~= vectors.take(m));
        lemma_vectors_bytes_grow(vectors, m + 1);
    } else {
        assert(vectors.take(m) =~= vectors);
    }
}

fn bytes_of_vectors(vectors: &Vec<Vec<u32>>) -> (r: usize)
    requires
        vectors_bytes(vector_lists(vectors@)) <= usize::MAX,
    ensures
        r == vectors_bytes(vector_lists(vectors@)),
{
    let ghost v = vector_lists(vectors@);
    let mut sum: usize = 0;
    let mut i: usize = 0;
    assert(v.take(0) =~= Seq::empty());
    while i < vectors.len()
        invariant
            i <= vectors@.len(),
            v == vector_lists(vectors@),
            vectors_bytes(v) <= usize::MAX,
            sum == vectors_bytes(v.take(i as int)),
        decreases vectors@.len() - i,
    {
        proof {
            assert(v.take(i as int + 1).drop_last() =~= v.take(i as int));
            assert(v.take(i as int + 1).last() == vectors@[i as int]@);
            lemma_vectors_bytes_grow(v, i as int + 1);
        }
        sum = sum + 4 * vectors[i].len();
        i = i + 1;
    }
    assert(v.take(i as int) =~= v);
    sum
}

proof fn lemma_all_vectors_sound(
    schema: Seq<FieldView>,
    columns: Seq<CellsView>,
    vcs: Seq<VectorConfigView>,
    rows: nat,
)
    requires
        schema.len() == columns.len(),
        forall|i: int|
            0 <= i < columns.len() ==> cells_sound(#[trigger] columns[i]) && cells_rows(columns[i])
                == rows,
        all_vectors(schema, columns, vcs) is Ok,
    ensures
        all_vectors(schema, columns, vcs)->Ok_0.len() == vcs.len(),
        forall|i: int|
            0 <= i < vcs.len() ==> (#[trigger] all_vectors(schema, columns, vcs)->Ok_0[i]).len()
                == rows * vcs[i].dim,
    decreases vcs.len(),
{
    if vcs.len() > 0 {
        lemma_all_vectors_sound(schema, columns, vcs.drop_last(), rows);
        lemma_field_index_bound(schema, vcs.last().column, 0);
        let rest = all_vectors(schema, columns, vcs.drop_last())->Ok_0;
        let all = all_vectors(schema, columns, vcs)->Ok_0;
        assert forall|i: int| 0 <= i < vcs.len() implies (#[trigger] all[i]).len() == rows
            * vcs[i].dim by {
            if i < vcs.len() - 1 {
                assert(all[i] == rest[i]);
                assert(vcs.drop_last()[i] == vcs[i]);
            }
        }
    }
}

proof fn lemma_field_index_bound(s: Seq<FieldView>, name: Seq<char>, from: int)
    requires
        0 <= from,
    ensures
        crate::writer::batch::field_index(s, name, from) matches Some(i) ==> 0 <= i < s.len(),
    decreases s.len() - from,
{
    if from < s.len() {
        lemma_field_index_bound(s, name, from + 1);
    }
}

impl SupertableWriter {
    /// That the buffered batches are whole, and their rows can be counted.
    pub open spec fn well_formed(&self) -> bool {
        &&& buffer_sound(self@.buffer, dims_of(self@.options.vector_columns))
        &&& total_rows(row_counts(self@.buffer)) <= usize::MAX
        &&& forall|i: int|
            0 <= i < self@.buffer.len() ==> (#[trigger] self@.buffer[i]).ids.len() <= usize::MAX
    }

    /// A writer without rows.
    pub fn new(options: Arc<SupertableOptions>) -> (r: Self)
        ensures
            r.well_formed(),
            r@.options == options@,
            r@.buffer.len() == 0,
            r@.bytes == 0,
    {
        SupertableWriter { options, buffer: Vec::new(), buffer_bytes: 0 }
    }

    /// The number of buffered batches.
    pub fn buffered_batches(&self) -> (n: usize)
        ensures
            n == self@.buffer.len(),
    {
        self.buffer.len()
    }

    /// About how many bytes are buffered.
    pub fn buffered_bytes(&self) -> (n: usize)
        ensures
            n == self@.bytes,
    {
        self.buffer_bytes
    }

    /// The columns that were picked, copied, where all fit their fields.
    fn pick_columns(batch: &Batch, scalar: &Vec<usize>, fields: &Vec<Field>) -> (r: Option<
        Vec<Column>,
    >)
        requires
            scalar@.len() + 1 == fields@.len(),
            forall|k: int| 0 <= k < scalar@.len() ==> #[trigger] scalar@[k] < batch.columns@.len(),
            forall|k: int|
                0 <= k < batch.columns@.len() ==> cells_sound((#[trigger] batch.columns@[k])@)
                    && cells_rows(batch.columns@[k]@) == batch.rows,
        ensures
            match r {
                Some(c) => c@.len() == scalar@.len() && forall|k: int|
                    0 <= k < c@.len() ==> (#[trigger] c@[k])@ == cells_views(
                        batch.columns@,
                    )[scalar@[k] as int] && fits_field(c@[k]@, fields@[k + 1]@),
                None => exists|k: int|
                    0 <= k < scalar@.len() && !fits_field(
                        cells_views(batch.columns@)[#[trigger] scalar@[k] as int],
                        fields@[k + 1]@,
                    ),
            },
    {
        let ghost cells = cells_views(batch.columns@);
        let mut out: Vec<Column> = Vec::new();
        let mut i: usize = 0;
        while i < scalar.len()
            invariant
                i <= scalar@.len(),
                cells == cells_views(batch.columns@),
                scalar@.len() + 1 == fields@.len(),
                forall|k: int|
                    0 <= k < scalar@.len() ==> #[trigger] scalar@[k] < batch.columns@.len(),
                forall|k: int|
                    0 <= k < batch.columns@.len() ==> cells_sound((#[trigger] batch.columns@[k])@)
                        && cells_rows(batch.columns@[k]@) == batch.rows,
                out@.len() == i,
                forall|k: int|
                    0 <= k < i ==> (#[trigger] out@[k])@ == cells[scalar@[k] as int] && fits_field(
                        out@[k]@,
                        fields@[k + 1]@,
                    ),
            decreases scalar@.len() - i,
        {
            let at: usize = scalar[i];
            let c = &batch.columns[at];
            assert(cells[at as int] == c@);
            if !c.fits(&fields[i + 1]) {
                assert(!fits_field(cells[scalar@[i as int] as int], fields@[i + 1]@));
                return None;
            }
            let copy = c.slice(0, batch.rows);
            proof {
                lemma_whole_slice(c@, batch.rows as int);
            }
            out.push(copy);
            i = i + 1;
        }
        Some(out)
    }

    /// Adds a batch, whose rows get these ids. `scalar_bytes` is about what
    /// its columns but for the vectors take. Says whether a commit is due. A
    /// batch that is refused leaves the buffer as it was.
    pub fn append(&mut self, batch: &Batch, ids: Vec<i128>, scalar_bytes: usize) -> (r: Result<
        bool,
        BuildError,
    >)
        requires
            old(self).well_formed(),
            batch.well_formed(),
            forall|k: int|
                0 <= k < batch.columns@.len() ==> cells_sound((#[trigger] batch.columns@[k])@),
            ids@.len() == batch.rows,
            total_rows(row_counts(old(self)@.buffer)) + batch.rows <= usize::MAX,
            old(self)@.bytes + scalar_bytes + batch_vector_bytes(
                dims_of(old(self)@.options.vector_columns),
                batch.rows as nat,
            ) <= usize::MAX,
        ensures
            final(self).well_formed(),
            final(self)@.options == old(self)@.options,
            match appended(
                old(self)@.options,
                schema_view(batch.schema@),
                cells_views(batch.columns@),
                ids@,
            ) {
                Err(e) => r matches Err(f) && f@ == e && final(self)@ == old(self)@,
                Ok(b) => {
                    &&& final(self)@.buffer == old(self)@.buffer.push(b)
                    &&& final(self)@.bytes == old(self)@.bytes + scalar_bytes + vectors_bytes(
                        b.vectors,
                    )
                    &&& r == Ok::<bool, BuildError>(
                        commit_due(
                            final(self)@.bytes,
                            old(self)@.options.commit_threshold_size_mb,
                        ),
                    )
                },
            },
    {
        let ghost before = self@;
        let ghost o = self.options@;
        let ghost schema = schema_view(batch.schema@);
        let ghost cells = cells_views(batch.columns@);
        let ghost fields = without_names(o.schema, vector_names(o.vector_columns));
        let split = match split_vectors(batch, &self.options) {
            Ok(s) => s,
            Err(e) => return Err(e),
        };
        let scalar_fields = self.options.scalar_schema();
        proof {
            assert(schema_view(scalar_fields@).len() == fields.len() + 1);
            assert(indices(split.scalar@).len() == fields.len());
            assert forall|k: int| 0 <= k < fields.len() implies #[trigger] fields[k]
                == scalar_fields@[k + 1]@ by {
                assert(schema_view(scalar_fields@)[k + 1] == fields[k]);
            }
        }
        let columns = match Self::pick_columns(batch, &split.scalar, &scalar_fields) {
            Some(c) => c,
            None => {
                proof {
                    let k = choose|k: int|
                        0 <= k < split.scalar@.len() && !fits_field(
                            cells[#[trigger] split.scalar@[k] as int],
                            scalar_fields@[k + 1]@,
                        );
                    assert(indices(split.scalar@)[k] == split.scalar@[k]);
                    assert(fields[k] == scalar_fields@[k + 1]@);
                    assert(!picked_fit(schema, cells, fields));
                }
                return Err(BuildError::BatchSchemaMismatch);
            },
        };
        let ghost b = buffered_of(schema, cells, fields, ids@, vector_lists(split.vectors@));
        proof {
            assert forall|k: int| 0 <= k < fields.len() implies fits_field(
                cells[columns_named(schema, fields)[k]],
                #[trigger] fields[k],
            ) by {
                assert(indices(split.scalar@)[k] == split.scalar@[k]);
                assert(columns@[k]@ == cells[split.scalar@[k] as int]);
            }
            assert(cells_views(columns@) =~= b.columns) by {
                assert forall|k: int| 0 <= k < columns@.len() implies cells_views(columns@)[k]
                    == b.columns[k] by {
                    assert(indices(split.scalar@)[k] == split.scalar@[k]);
                    assert(columns@[k]@ == cells[split.scalar@[k] as int]);
                }
            }
            assert forall|k: int| 0 <= k < cells.len() implies cells_sound(#[trigger] cells[k])
                && cells_rows(cells[k]) == batch.rows by {
                assert(cells[k] == batch.columns@[k]@);
            }
            lemma_all_vectors_sound(schema, cells, o.vector_columns, batch.rows as nat);
            lemma_vectors_bytes(b.vectors, dims_of(o.vector_columns), batch.rows as nat);
            assert(buffered_sound(b, dims_of(o.vector_columns))) by {
                assert forall|k: int| 0 <= k < b.columns.len() implies cells_sound(
                    #[trigger] b.columns[k],
                ) && cells_rows(b.columns[k]) == ids@.len() by {
                    assert(indices(split.scalar@)[k] == split.scalar@[k]);
                    assert(b.columns[k] == cells[split.scalar@[k] as int]);
                }
            }
        }
        let more: usize = bytes_of_vectors(&split.vectors);
        let bytes: usize = scalar_bytes + more;
        let entry = BufferedBatch { ids, columns, vectors: split.vectors };
        assert(entry@ == b);
        self.buffer.push(entry);
        self.buffer_bytes = self.buffer_bytes + bytes;
        proof {
            assert(self@.buffer =~= before.buffer.push(b));
            lemma_rows_pushed(row_counts(before.buffer), batch.rows, 0);
            assert(row_counts(self@.buffer) =~= row_counts(before.buffer).push(batch.rows));
        }
        Ok(is_commit_due(self.buffer_bytes, self.options.commit_threshold_size_mb))
    }

    /// Takes all buffered rows, for a commit to build a superfile of each shard.
    /// There is one shard for each of `n_threads`, as far as there are rows.
    pub fn commit(&mut self, n_threads: usize) -> (r: Vec<Vec<BufferedBatch>>)
        requires
            old(self).well_formed(),
        ensures
            final(self).well_formed(),
            final(self)@.options == old(self)@.options,
            final(self)@.buffer.len() == 0,
            final(self)@.bytes == 0,
            total_rows(row_counts(old(self)@.buffer)) == 0 ==> r@.len() == 0,
            total_rows(row_counts(old(self)@.buffer)) > 0 ==> shards_of(
                r@,
                old(self)@.buffer,
                dims_of(old(self)@.options.vector_columns),
                shard_count(
                    total_rows(row_counts(old(self)@.buffer)),
                    if n_threads == 0 {
                        1
                    } else {
                        n_threads as nat
                    },
                ),
            ),
    {
        let ghost before = self@;
        let ghost rows = row_counts(before.buffer);
        let mut buffer: Vec<BufferedBatch> = Vec::new();
        std::mem::swap(&mut buffer, &mut self.buffer);
        self.buffer_bytes = 0;
        let total: usize = total_buffered(&buffer);
        if total == 0 {
            return Vec::new();
        }
        let threads: usize = if n_threads == 0 {
            1
        } else {
            n_threads
        };
        let n_shards: usize = if total < threads {
            total
        } else {
            threads
        };
        let mut dims: Vec<usize> = Vec::new();
        let mut i: usize = 0;
        while i < self.options.vector_columns.len()
            invariant
                i <= self.options.vector_columns@.len(),
                dims@ == dims_of(self.options@.vector_columns).take(i as int),
            decreases self.options.vector_columns@.len() - i,
        {
            dims.push(self.options.vector_columns[i].dim);
            i = i + 1;
            assert(dims_of(self.options@.vector_columns).take(i as int) =~= dims_of(
                self.options@.vector_columns,
            ).take(i as int - 1).push(self.options.vector_columns@[i as int - 1].dim));
        }
        assert(dims@ =~= dims_of(before.options.vector_columns));
        split_buffer_into_row_shards(&buffer, n_shards, dims.as_slice())
    }
}

fn total_buffered(buffer: &Vec<BufferedBatch>) -> (r: usize)
    requires
        total_rows(row_counts(buffer_views(buffer@))) <= usize::MAX,
    ensures
        r == total_rows(row_counts(buffer_views(buffer@))),
{
    let rows = count_rows(buffer);
    crate::writer::shards::total_of(rows.as_slice())
}

proof fn lemma_whole_slice(c: CellsView, rows: int)
    requires
        cells_sound(c),
        cells_rows(c) == rows,
    ensures
        cells_slice(c, 0, rows) == c,
{
    match c {
        CellsView::Scalar(s) => {
            assert(s.values.subrange(0, rows) =~= s.values);
        },
        CellsView::Vectors { list_size, valid, items, .. } => {
            assert(valid.subrange(0, rows) =~= valid);
            assert(0 * list_size == 0);
            if items is Some {
                let v = items->0;
                assert(v.subrange(0, rows * list_size) =~= v);
            }
        },
    }
}

proof fn lemma_rows_pushed(rows: Seq<usize>, n: usize, k: int)
    requires
        0 <= k <= rows.len(),
    ensures
        rows_from(rows.push(n), k) == rows_from(rows, k) + n,
    decreases rows.len() - k,
{
    if k < rows.len() {
        lemma_rows_pushed(rows, n, k + 1);
    } else {
        assert(rows_from(rows.push(n), k + 1) == 0);
    }
}

// ---------------------------------------------------------------- laws

/// The ids of rows.
pub open spec fn ids_at(buffer: Seq<BufferedView>, rows: Seq<(int, int)>) -> Seq<i128> {
    Seq::new(rows.len(), |i: int| buffer[rows[i].0].ids[rows[i].1])
}

/// The ids of batches `k` and on, in order.
pub open spec fn ids_from(buffer: Seq<BufferedView>, k: int) -> Seq<i128>
    decreases buffer.len() - k,
{
    if k >= buffer.len() || k < 0 {
        Seq::empty()
    } else {
        buffer[k].ids + ids_from(buffer, k + 1)
    }
}

/// The ids of the first `m` shards, in order.
pub open spec fn sharded_ids(shards: Seq<Vec<BufferedBatch>>, m: int) -> Seq<i128>
    decreases m,
{
    if m <= 0 {
        Seq::empty()
    } else {
        sharded_ids(shards, m - 1) + ids_from(buffer_views(shards[m - 1]@), 0)
    }
}

proof fn lemma_shard_ids(
    shard: Seq<BufferedView>,
    buffer: Seq<BufferedView>,
    dims: Seq<usize>,
    pieces: Seq<Piece>,
    k: int,
)
    requires
        shard.len() == pieces.len(),
        0 <= k <= pieces.len(),
        forall|j: int|
            0 <= j < shard.len() ==> #[trigger] shard[j] == buffered_slice(
                buffer[pieces[j].batch as int],
                dims,
                pieces[j],
            ),
        forall|j: int|
            0 <= j < pieces.len() ==> (#[trigger] pieces[j]).batch < buffer.len() && pieces[j].start
                + pieces[j].len <= buffer[pieces[j].batch as int].ids.len(),
    ensures
        ids_from(shard, k) == ids_at(buffer, flat_rows(pieces.skip(k))),
    decreases pieces.len() - k,
{
    let rest = pieces.skip(k);
    if k < pieces.len() {
        lemma_shard_ids(shard, buffer, dims, pieces, k + 1);
        assert(rest[0] == pieces[k]);
        assert(rest.skip(1) =~= pieces.skip(k + 1));
        let p = pieces[k];
        assert(shard[k].ids == buffer[p.batch as int].ids.subrange(
            p.start as int,
            p.start + p.len,
        ));
        assert(flat_rows(rest) == piece_rows(p) + flat_rows(pieces.skip(k + 1)));
        assert(ids_at(buffer, flat_rows(rest)) =~= shard[k].ids + ids_at(
            buffer,
            flat_rows(pieces.skip(k + 1)),
        ));
    } else {
        assert(ids_at(buffer, flat_rows(rest)) =~= Seq::empty());
    }
}

proof fn lemma_ids_between(buffer: Seq<BufferedView>, rows: Seq<usize>, k: int)
    requires
        rows == row_counts(buffer),
        forall|i: int| 0 <= i < buffer.len() ==> (#[trigger] buffer[i]).ids.len() <= usize::MAX,
        0 <= k <= buffer.len(),
    ensures
        ids_at(buffer, rows_between(rows, k, 0, rows_from(rows, k) as int)) == ids_from(buffer, k),
    decreases buffer.len() - k,
{
    let all = ids_at(buffer, rows_between(rows, k, 0, rows_from(rows, k) as int));
    if k < buffer.len() {
        lemma_ids_between(buffer, rows, k + 1);
        let n = rows[k] as int;
        assert(n == buffer[k].ids.len());
        let rest = ids_at(buffer, rows_between(rows, k + 1, 0, rows_from(rows, k + 1) as int));
        assert(all =~= buffer[k].ids + rest);
    } else {
        assert(all =~= Seq::empty());
    }
}

proof fn lemma_sharded_ids(
    shards: Seq<Vec<BufferedBatch>>,
    buffer: Seq<BufferedView>,
    dims: Seq<usize>,
    n: nat,
    m: nat,
)
    requires
        n > 0,
        shards_of(shards, buffer, dims, n),
        total_rows(row_counts(buffer)) <= usize::MAX,
        buffer.len() <= usize::MAX,
        forall|i: int| 0 <= i < buffer.len() ==> (#[trigger] buffer[i]).ids.len() <= usize::MAX,
        m <= shards.len(),
    ensures
        sharded_ids(shards, m as int) == ids_at(buffer, sharded_rows(row_counts(buffer), n, m)),
    decreases m,
{
    let rows = row_counts(buffer);
    if m == 0 {
        assert(ids_at(buffer, Seq::empty()) =~= Seq::empty());
    } else {
        let i = (m - 1) as nat;
        lemma_sharded_ids(shards, buffer, dims, n, i);
        let pieces = shard_pieces(rows, n, i);
        assert(shard_made(shards[i as int]@, buffer, dims, pieces));
        lemma_shard_pieces_within(rows, n, i);
        let shard = buffer_views(shards[i as int]@);
        assert forall|j: int| 0 <= j < shard.len() implies #[trigger] shard[j] == buffered_slice(
            buffer[pieces[j].batch as int],
            dims,
            pieces[j],
        ) by {
            assert(shard[j] == shards[i as int]@[j]@);
        }
        assert forall|j: int| 0 <= j < pieces.len() implies (#[trigger] pieces[j]).batch
            < buffer.len() && pieces[j].start + pieces[j].len <= buffer[pieces[j].batch as int].ids.len() by {
            assert(piece_within(pieces[j], rows));
        }
        lemma_shard_ids(shard, buffer, dims, pieces, 0);
        assert(pieces.skip(0) =~= pieces);
        let a = sharded_rows(rows, n, i);
        let b = flat_rows(pieces);
        assert(ids_at(buffer, a + b) =~= ids_at(buffer, a) + ids_at(buffer, b));
    }
}

/// The shards hold the ids of all buffered rows, each once and in order.
pub proof fn shards_keep_ids(
    shards: Seq<Vec<BufferedBatch>>,
    buffer: Seq<BufferedView>,
    dims: Seq<usize>,
    n: nat,
)
    requires
        n > 0,
        shards_of(shards, buffer, dims, n),
        total_rows(row_counts(buffer)) <= usize::MAX,
        buffer.len() <= usize::MAX,
        forall|i: int| 0 <= i < buffer.len() ==> (#[trigger] buffer[i]).ids.len() <= usize::MAX,
    ensures
        sharded_ids(shards, shards.len() as int) == ids_from(buffer, 0),
{
    let rows = row_counts(buffer);
    lemma_sharded_ids(shards, buffer, dims, n, shards.len());
    shards_hold_all_rows(rows, n);
    lemma_ids_between(buffer, rows, 0);
}

/// The value that a scalar column has in a row.
pub open spec fn value_in(c: CellsView, row: int) -> Option<ValueView> {
    c->Scalar_0.values[row]
}

/// A row of a shard is a row of the batch that it was cut out of: with its id,
/// the values of its columns and its vectors.
pub proof fn shard_rows_are_whole(
    b: BufferedView,
    dims: Seq<usize>,
    p: Piece,
    row: int,
    c: int,
    v: int,
    d: int,
)
    requires
        buffered_sound(b, dims),
        p.start + p.len <= b.ids.len(),
        0 <= row < p.len,
    ensures
        ({
            let s = buffered_slice(b, dims, p);
            &&& s.ids.len() == p.len
            &&& s.ids[row] == b.ids[p.start + row]
            &&& s.columns.len() == b.columns.len()
            &&& 0 <= c < b.columns.len() && b.columns[c] is Scalar ==> s.columns[c] is Scalar
                && value_in(s.columns[c], row) == value_in(b.columns[c], p.start + row)
            &&& 0 <= c < b.columns.len() ==> cells_rows(s.columns[c]) == p.len && cells_type(
                s.columns[c],
            ) == cells_type(b.columns[c])
            &&& s.vectors.len() == b.vectors.len()
            &&& 0 <= v < b.vectors.len() && 0 <= d < dims[v] ==> s.vectors[v][row * dims[v] + d]
                == b.vectors[v][(p.start + row) * dims[v] + d]
        }),
{
    let s = buffered_slice(b, dims, p);
    if 0 <= c < b.columns.len() {
        assert(cells_rows(b.columns[c]) == b.ids.len());
    }
    if 0 <= v < b.vectors.len() && 0 <= d < dims[v] {
        let n = dims[v] as int;
        assert(b.vectors[v].len() == b.ids.len() * dims[v]);
        let (start, len, all) = (p.start as int, p.len as int, b.ids.len() as int);
        assert(0 <= start * n <= (start + len) * n && (start + len) * n <= all * n && 0 <= row * n
            + d < (start + len) * n - start * n && start * n + (row * n + d) == (start + row) * n
            + d) by (nonlinear_arith)
            requires
                0 <= start,
                0 <= row < len,
                start + len <= all,
                0 <= d < n,
        ;
    }
}

/// A commit is due from the threshold on, and stays due while rows are added; a
/// threshold of zero never makes one due.
pub proof fn commits_are_due_from_the_threshold_on(bytes: nat, more: nat, threshold_mb: u64)
    requires
        bytes <= more < usize::MAX,
    ensures
        !commit_due(bytes, 0),
        commit_due(bytes, threshold_mb) ==> commit_due(more, threshold_mb),
        threshold_mb > 0 ==> (commit_due(bytes, threshold_mb) <==> bytes >= threshold_mb * 1024
            * 1024),
{
}

/// Every coordinate of a vector takes four bytes.
pub proof fn coordinates_take_four_bytes(a: Seq<Seq<u32>>, v: Seq<u32>)
    ensures
        vectors_bytes(a.push(v)) == vectors_bytes(a) + 4 * v.len(),
        vectors_bytes(Seq::empty()) == 0,
{
    assert(a.push(v).drop_last() =~= a);
}

/// What is buffered of a batch are the columns that stand under the names of the
/// scalar fields, in the order of the fields, and the ids.
pub proof fn fields_are_buffered_under_their_names(
    schema: Seq<FieldView>,
    columns: Seq<CellsView>,
    fields: Seq<FieldView>,
    ids: Seq<i128>,
    vectors: Seq<Seq<u32>>,
    k: int,
    i: int,
)
    requires
        0 <= k < fields.len(),
        first_at(schema, fields[k].name, i),
    ensures
        ({
            let b = buffered_of(schema, columns, fields, ids, vectors);
            &&& b.ids == ids
            &&& b.vectors == vectors
            &&& b.columns.len() == fields.len()
            &&& b.columns[k] == columns[i]
        }),
{
    columns_are_found_at_their_place(schema, fields[k].name, 0);
}

/// A batch is buffered just where it has the schema of the table, its vectors
/// can be taken, and its scalar columns stand in their fields; it is refused
/// for its schema before it is refused for its vectors.
pub proof fn only_batches_of_the_schema_are_buffered(
    o: SupertableOptionsView,
    schema: Seq<FieldView>,
    columns: Seq<CellsView>,
    ids: Seq<i128>,
)
    ensures
        schema != o.schema ==> appended(o, schema, columns, ids) == Err::<
            BufferedView,
            BuildErrorView,
        >(BuildErrorView::BatchSchemaMismatch),
        schema == o.schema && all_vectors(schema, columns, o.vector_columns) is Err ==> appended(
            o,
            schema,
            columns,
            ids,
        ) == Err::<BufferedView, BuildErrorView>(
            all_vectors(schema, columns, o.vector_columns)->Err_0,
        ),
        appended(o, schema, columns, ids) matches Ok(b) ==> schema == o.schema && b.ids == ids
            && b.vectors == all_vectors(schema, columns, o.vector_columns)->Ok_0,
{
}

} // verus!
