//! Batches of rows, and the vectors taken out of them.

use vstd::prelude::*;

use crate::error::{BuildError, BuildErrorView};
use crate::options::{
    first_at, list_len, occurs, schema_view, vector_config_views, vector_names, without_names, Field,
    FieldView, SupertableOptions, VectorConfig, VectorConfigView,
};
use crate::scalar::{
    column_values, opt_value, ColumnView, DataType, DataTypeView, Scalar, ScalarColumn,
};
use crate::text::text_eq;
use crate::writer::plan::indices;

verus! {

// ---------------------------------------------------------------- columns

/// A column of lists of one size.
#[derive(Debug)]
pub struct VectorColumn {
    pub data_type: DataType,
    pub list_size: i32,
    /// Which rows are not null.
    pub valid: Vec<bool>,
    /// The bit patterns of the items of all rows, some of them null. None
    /// where the items are no 32-bit floats.
    pub items: Option<Vec<Option<u32>>>,
}

/// A column of a batch.
#[derive(Debug)]
pub enum Column {
    Scalar(ScalarColumn),
    Vectors(VectorColumn),
}

pub enum CellsView {
    Scalar(ColumnView),
    Vectors {
        data_type: DataTypeView,
        list_size: i32,
        valid: Seq<bool>,
        items: Option<Seq<Option<u32>>>,
    },
}

/// The view of optional items.
pub open spec fn items_view(items: Option<Vec<Option<u32>>>) -> Option<Seq<Option<u32>>> {
    match items {
        Some(v) => Some(v@),
        None => None,
    }
}

impl View for Column {
    type V = CellsView;

    open spec fn view(&self) -> CellsView {
        match *self {
            Column::Scalar(c) => CellsView::Scalar(c@),
            Column::Vectors(c) => CellsView::Vectors {
                data_type: c.data_type@,
                list_size: c.list_size,
                valid: c.valid@,
                items: items_view(c.items),
            },
        }
    }
}

/// The columns that a list holds.
pub open spec fn cells_views(s: Seq<Column>) -> Seq<CellsView> {
    Seq::new(s.len(), |i: int| s[i]@)
}

/// The type of a column.
pub open spec fn cells_type(c: CellsView) -> DataTypeView {
    match c {
        CellsView::Scalar(s) => s.data_type,
        CellsView::Vectors { data_type, .. } => data_type,
    }
}

/// The rows of a column.
pub open spec fn cells_rows(c: CellsView) -> nat {
    match c {
        CellsView::Scalar(s) => s.values.len(),
        CellsView::Vectors { valid, .. } => valid.len(),
    }
}

/// That a row of the column is null.
pub open spec fn cell_null(c: CellsView, i: int) -> bool {
    match c {
        CellsView::Scalar(s) => s.values[i] is None,
        CellsView::Vectors { valid, .. } => !valid[i],
    }
}

/// That the column can stand in the field: it has the type, and nulls only
/// where they are allowed.
pub open spec fn fits_field(c: CellsView, f: FieldView) -> bool {
    &&& cells_type(c) == f.data_type
    &&& !f.nullable ==> forall|i: int| 0 <= i < cells_rows(c) ==> !#[trigger] cell_null(c, i)
}

impl Column {
    /// The rows of the column.
    pub fn rows(&self) -> (n: usize)
        ensures
            n == cells_rows(self@),
    {
        match self {
            Column::Scalar(c) => c.values.len(),
            Column::Vectors(c) => c.valid.len(),
        }
    }

    /// The type of the column.
    pub fn data_type(&self) -> (r: &DataType)
        ensures
            r@ == cells_type(self@),
    {
        match self {
            Column::Scalar(c) => &c.data_type,
            Column::Vectors(c) => &c.data_type,
        }
    }

    /// Whether a row is null.
    pub fn is_null(&self, i: usize) -> (r: bool)
        requires
            i < cells_rows(self@),
        ensures
            r == cell_null(self@, i as int),
    {
        match self {
            Column::Scalar(c) => {
                assert(column_values(c.values@)[i as int] == opt_value(c.values@[i as int]));
                c.values[i].is_none()
            },
            Column::Vectors(c) => !c.valid[i],
        }
    }

    /// Whether the column can stand in the field.
    pub fn fits(&self, f: &Field) -> (r: bool)
        ensures
            r == fits_field(self@, f@),
    {
        if !self.data_type().same(&f.data_type) {
            return false;
        }
        if f.nullable {
            return true;
        }
        let n: usize = self.rows();
        let mut i: usize = 0;
        while i < n
            invariant
                n == cells_rows(self@),
                i <= n,
                !f.nullable,
                cells_type(self@) == f@.data_type,
                forall|k: int| 0 <= k < i ==> !#[trigger] cell_null(self@, k),
            decreases n - i,
        {
            if self.is_null(i) {
                return false;
            }
            i = i + 1;
        }
        true
    }
}

// ---------------------------------------------------------------- batches

/// Rows that a caller appends.
#[derive(Debug)]
pub struct Batch {
    pub schema: Vec<Field>,
    pub columns: Vec<Column>,
    pub rows: usize,
}

impl Batch {
    /// That there is a column for every field, that fits it and has all rows.
    pub open spec fn well_formed(&self) -> bool {
        &&& self.columns@.len() == self.schema@.len()
        &&& forall|i: int|
            0 <= i < self.columns@.len() ==> cells_rows((#[trigger] self.columns@[i])@) == self.rows
                && fits_field(self.columns@[i]@, self.schema@[i]@)
    }
}

/// The place of the first field of a name.
pub open spec fn field_index(s: Seq<FieldView>, name: Seq<char>, from: int) -> Option<int>
    decreases s.len() - from,
{
    if from >= s.len() || from < 0 {
        None
    } else if s[from].name == name {
        Some(from)
    } else {
        field_index(s, name, from + 1)
    }
}

fn index_of(schema: &Vec<Field>, name: &str) -> (r: Option<usize>)
    ensures
        match r {
            Some(i) => i < schema@.len() && field_index(schema_view(schema@), name@, 0) == Some(
                i as int,
            ),
            None => field_index(schema_view(schema@), name@, 0) is None,
        },
{
    let ghost v = schema_view(schema@);
    let mut i: usize = 0;
    while i < schema.len()
        invariant
            i <= schema@.len(),
            v == schema_view(schema@),
            field_index(v, name@, 0) == field_index(v, name@, i as int),
        decreases schema@.len() - i,
    {
        assert(v[i as int].name == schema@[i as int].name@);
        if text_eq(schema[i].name.as_str(), name) {
            return Some(i);
        }
        i = i + 1;
    }
    None
}

fn same_schema(a: &Vec<Field>, b: &Vec<Field>) -> (r: bool)
    ensures
        r == (schema_view(a@) == schema_view(b@)),
{
    let ghost va = schema_view(a@);
    let ghost vb = schema_view(b@);
    if a.len() != b.len() {
        assert(va.len() != vb.len());
        return false;
    }
    let mut i: usize = 0;
    while i < a.len()
        invariant
            i <= a@.len(),
            a@.len() == b@.len(),
            va == schema_view(a@),
            vb == schema_view(b@),
            forall|k: int| 0 <= k < i ==> #[trigger] va[k] == vb[k],
        decreases a@.len() - i,
    {
        let same = text_eq(a[i].name.as_str(), b[i].name.as_str()) && a[i].data_type.same(
            &b[i].data_type,
        ) && a[i].nullable == b[i].nullable;
        assert(va[i as int] == a@[i as int]@);
        assert(vb[i as int] == b@[i as int]@);
        if !same {
            assert(va[i as int] != vb[i as int]);
            return false;
        }
        i = i + 1;
    }
    assert(va =~= vb);
    true
}

// ---------------------------------------------------------------- vectors

/// How many null rows an error names.
pub const MAX_NULLS_NAMED: usize = 5;

/// The places before `n` that are null, at most `max` of them.
pub open spec fn first_null_rows(valid: Seq<bool>, n: int, max: nat) -> Seq<usize>
    decreases n,
{
    if n <= 0 {
        Seq::empty()
    } else {
        let before = first_null_rows(valid, n - 1, max);
        if before.len() < max && !valid[n - 1] {
            before.push((n - 1) as usize)
        } else {
            before
        }
    }
}

/// Which items are there.
pub open spec fn present(items: Seq<Option<u32>>) -> Seq<bool> {
    Seq::new(items.len(), |i: int| items[i] is Some)
}

/// The patterns of items that are all there.
pub open spec fn patterns(items: Seq<Option<u32>>) -> Seq<u32> {
    Seq::new(items.len(), |i: int| items[i]->0)
}

/// The first nulls of a column. None where there are none.
fn collect_first_nulls(valid: &[bool]) -> (r: Vec<usize>)
    ensures
        r@ == first_null_rows(valid@, valid@.len() as int, MAX_NULLS_NAMED as nat),
{
    let mut out: Vec<usize> = Vec::new();
    let mut i: usize = 0;
    while i < valid.len()
        invariant
            i <= valid@.len(),
            out@ == first_null_rows(valid@, i as int, MAX_NULLS_NAMED as nat),
        decreases valid@.len() - i,
    {
        if out.len() < MAX_NULLS_NAMED && !valid[i] {
            out.push(i);
        }
        i = i + 1;
    }
    out
}

fn presence(items: &Vec<Option<u32>>) -> (r: Vec<bool>)
    ensures
        r@ == present(items@),
{
    let mut out: Vec<bool> = Vec::new();
    let mut i: usize = 0;
    while i < items.len()
        invariant
            i <= items@.len(),
            out@ == present(items@).take(i as int),
        decreases items@.len() - i,
    {
        out.push(items[i].is_some());
        i = i + 1;
        assert(present(items@).take(i as int) =~= present(items@).take(i as int - 1).push(
            items@[i as int - 1] is Some,
        ));
    }
    assert(present(items@).take(i as int) =~= present(items@));
    out
}

fn copy_patterns(items: &Vec<Option<u32>>) -> (r: Vec<u32>)
    requires
        forall|i: int| 0 <= i < items@.len() ==> #[trigger] items@[i] is Some,
    ensures
        r@ == patterns(items@),
{
    let mut out: Vec<u32> = Vec::new();
    let mut i: usize = 0;
    while i < items.len()
        invariant
            i <= items@.len(),
            forall|k: int| 0 <= k < items@.len() ==> #[trigger] items@[k] is Some,
            out@ == patterns(items@).take(i as int),
        decreases items@.len() - i,
    {
        match items[i] {
            Some(x) => {
                out.push(x);
            },
            None => {
                assert(false);
            },
        }
        i = i + 1;
        assert(patterns(items@).take(i as int) =~= patterns(items@).take(i as int - 1).push(
            items@[i as int - 1]->0,
        ));
    }
    assert(patterns(items@).take(i as int) =~= patterns(items@));
    out
}

proof fn lemma_no_nulls(valid: Seq<bool>, n: int, max: nat)
    requires
        0 <= n <= valid.len(),
        max > 0,
    ensures
        first_null_rows(valid, n, max).len() == 0 <==> forall|i: int|
            0 <= i < n ==> #[trigger] valid[i],
    decreases n,
{
    if n > 0 {
        lemma_no_nulls(valid, n - 1, max);
        if first_null_rows(valid, n, max).len() == 0 {
            assert forall|i: int| 0 <= i < n implies #[trigger] valid[i] by {}
        }
    }
}

/// What is wrong with the vectors of a column, else their patterns.
pub open spec fn vectors_of(
    schema: Seq<FieldView>,
    columns: Seq<CellsView>,
    vc: VectorConfigView,
) -> Result<Seq<u32>, BuildErrorView> {
    let no_list = |actual: Seq<char>|
        BuildErrorView::VectorColumnNotFixedSizeList { column: vc.column, dim: vc.dim, actual };
    let nulls = |first_nulls: Seq<usize>|
        BuildErrorView::VectorColumnHasNulls { column: vc.column, first_nulls };
    match field_index(schema, vc.column, 0) {
        None => Err(BuildErrorView::VectorColumnMissing { column: vc.column }),
        Some(i) => match columns[i] {
            CellsView::Scalar(c) => Err(no_list(c.data_type.name)),
            CellsView::Vectors { data_type, list_size, valid, items } => {
                let null_rows = first_null_rows(valid, valid.len() as int, MAX_NULLS_NAMED as nat);
                if list_len(list_size) != vc.dim {
                    Err(
                        BuildErrorView::VectorColumnDimMismatch {
                            column: vc.column,
                            expected: vc.dim,
                            actual: list_len(list_size),
                        },
                    )
                } else if null_rows.len() > 0 {
                    Err(nulls(null_rows))
                } else {
                    match items {
                        None => Err(no_list(data_type.name)),
                        Some(items) => {
                            let null_items = first_null_rows(
                                present(items),
                                items.len() as int,
                                MAX_NULLS_NAMED as nat,
                            );
                            if null_items.len() > 0 {
                                Err(nulls(null_items))
                            } else {
                                Ok(patterns(items))
                            }
                        },
                    }
                }
            },
        },
    }
}

/// The vectors of a column.
fn take_vectors(batch: &Batch, vc: &VectorConfig) -> (r: Result<Vec<u32>, BuildError>)
    requires
        batch.columns@.len() == batch.schema@.len(),
    ensures
        match r {
            Ok(v) => vectors_of(schema_view(batch.schema@), cells_views(batch.columns@), vc@) == Ok::<
                Seq<u32>,
                BuildErrorView,
            >(v@),
            Err(e) => vectors_of(schema_view(batch.schema@), cells_views(batch.columns@), vc@)
                == Err::<Seq<u32>, BuildErrorView>(e@),
        },
{
    let i: usize = match index_of(&batch.schema, vc.column.as_str()) {
        Some(i) => i,
        None => return Err(BuildError::VectorColumnMissing { column: vc.column.clone() }),
    };
    assert(cells_views(batch.columns@)[i as int] == batch.columns@[i as int]@);
    match &batch.columns[i] {
        Column::Scalar(c) => Err(
            BuildError::VectorColumnNotFixedSizeList {
                column: vc.column.clone(),
                dim: vc.dim,
                actual: c.data_type.name.clone(),
            },
        ),
        Column::Vectors(c) => {
            let size: usize = if c.list_size < 0 {
                usize::MAX
            } else {
                c.list_size as usize
            };
            if size != vc.dim {
                return Err(
                    BuildError::VectorColumnDimMismatch {
                        column: vc.column.clone(),
                        expected: vc.dim,
                        actual: size,
                    },
                );
            }
            let null_rows = collect_first_nulls(c.valid.as_slice());
            if null_rows.len() > 0 {
                return Err(
                    BuildError::VectorColumnHasNulls {
                        column: vc.column.clone(),
                        first_nulls: null_rows,
                    },
                );
            }
            match &c.items {
                None => Err(
                    BuildError::VectorColumnNotFixedSizeList {
                        column: vc.column.clone(),
                        dim: vc.dim,
                        actual: c.data_type.name.clone(),
                    },
                ),
                Some(items) => {
                    let there = presence(items);
                    let null_items = collect_first_nulls(there.as_slice());
                    if null_items.len() > 0 {
                        return Err(
                            BuildError::VectorColumnHasNulls {
                                column: vc.column.clone(),
                                first_nulls: null_items,
                            },
                        );
                    }
                    proof {
                        lemma_no_nulls(
                            present(items@),
                            items@.len() as int,
                            MAX_NULLS_NAMED as nat,
                        );
                        assert forall|k: int| 0 <= k < items@.len() implies (
                        #[trigger] items@[k]) is Some by {
                            assert(present(items@)[k]);
                        }
                    }
                    Ok(copy_patterns(items))
                },
            }
        },
    }
}

// ---------------------------------------------------------------- splitting

/// The vectors of columns, one after the other, or the first fault.
pub open spec fn all_vectors(
    schema: Seq<FieldView>,
    columns: Seq<CellsView>,
    vcs: Seq<VectorConfigView>,
) -> Result<Seq<Seq<u32>>, BuildErrorView>
    decreases vcs.len(),
{
    if vcs.len() == 0 {
        Ok(Seq::empty())
    } else {
        match all_vectors(schema, columns, vcs.drop_last()) {
            Err(e) => Err(e),
            Ok(rest) => match vectors_of(schema, columns, vcs.last()) {
                Err(e) => Err(e),
                Ok(v) => Ok(rest.push(v)),
            },
        }
    }
}

/// For each of the fields, which column of the schema has its name.
pub open spec fn columns_named(schema: Seq<FieldView>, fields: Seq<FieldView>) -> Seq<int> {
    Seq::new(fields.len(), |i: int| field_index(schema, fields[i].name, 0)->0)
}

/// A batch without its vector columns, and the vectors.
#[derive(Debug)]
pub struct SplitBatch {
    /// Which columns of the batch are not vectors, in their order.
    pub scalar: Vec<usize>,
    /// The rows of these columns.
    pub rows: usize,
    /// The vectors of each vector column, in the order of the options.
    pub vectors: Vec<Vec<u32>>,
}

/// The vectors that a list holds.
pub open spec fn vector_lists(s: Seq<Vec<u32>>) -> Seq<Seq<u32>> {
    Seq::new(s.len(), |i: int| s[i]@)
}

fn is_vector_column(vectors: &Vec<VectorConfig>, name: &str) -> (r: bool)
    ensures
        r == occurs(vector_names(vector_config_views(vectors@)), name@),
{
    let ghost names = vector_names(vector_config_views(vectors@));
    let mut i: usize = 0;
    while i < vectors.len()
        invariant
            i <= vectors@.len(),
            names == vector_names(vector_config_views(vectors@)),
            names.len() == vectors@.len(),
            forall|k: int| 0 <= k < i ==> #[trigger] names[k] != name@,
        decreases vectors@.len() - i,
    {
        assert(names[i as int] == vectors@[i as int].column@);
        if text_eq(vectors[i].column.as_str(), name) {
            return true;
        }
        i = i + 1;
    }
    false
}

proof fn lemma_all_vectors_prefix(
    schema: Seq<FieldView>,
    columns: Seq<CellsView>,
    vcs: Seq<VectorConfigView>,
    n: int,
)
    requires
        0 <= n <= vcs.len(),
        all_vectors(schema, columns, vcs.take(n)) is Err,
    ensures
        all_vectors(schema, columns, vcs) == all_vectors(schema, columns, vcs.take(n)),
    decreases vcs.len() - n,
{
    if n < vcs.len() {
        assert(vcs.take(n + 1).drop_last() =~= vcs.take(n));
        lemma_all_vectors_prefix(schema, columns, vcs, n + 1);
    } else {
        assert(vcs.take(n) =~= vcs);
    }
}

proof fn lemma_field_index_found(s: Seq<FieldView>, i: int, from: int)
    requires
        0 <= from <= i < s.len(),
    ensures
        field_index(s, s[i].name, from) is Some,
    decreases i - from,
{
    if from < i {
        lemma_field_index_found(s, i, from + 1);
    }
}

/// The vectors of every vector column, taken out of a batch. The batch must
/// have the schema of the table, and its vectors no nulls.
pub fn split_vectors(batch: &Batch, options: &SupertableOptions) -> (r: Result<
    SplitBatch,
    BuildError,
>)
    requires
        batch.columns@.len() == batch.schema@.len(),
    ensures
        schema_view(batch.schema@) != options@.schema ==> r == Err::<SplitBatch, BuildError>(
            BuildError::BatchSchemaMismatch,
        ),
        schema_view(batch.schema@) == options@.schema ==> match all_vectors(
            options@.schema,
            cells_views(batch.columns@),
            options@.vector_columns,
        ) {
            Err(e) => r matches Err(f) && f@ == e,
            Ok(v) => r matches Ok(split) && vector_lists(split.vectors@) == v && split.rows
                == batch.rows && indices(split.scalar@) == columns_named(
                options@.schema,
                without_names(options@.schema, vector_names(options@.vector_columns)),
            ) && forall|k: int|
                0 <= k < split.scalar@.len() ==> #[trigger] split.scalar@[k] < batch.columns@.len(),
        },
{
    if !same_schema(&batch.schema, &options.schema) {
        return Err(BuildError::BatchSchemaMismatch);
    }
    let ghost schema = options@.schema;
    let ghost cells = cells_views(batch.columns@);
    let ghost vcs = options@.vector_columns;
    let ghost names = vector_names(vcs);
    let mut vectors: Vec<Vec<u32>> = Vec::new();
    let mut i: usize = 0;
    proof {
        assert(vcs.take(0) =~= Seq::empty());
        assert(vector_lists(vectors@) =~= Seq::empty());
    }
    while i < options.vector_columns.len()
        invariant
            i <= options.vector_columns@.len(),
            batch.columns@.len() == batch.schema@.len(),
            schema == schema_view(batch.schema@),
            schema == options@.schema,
            cells == cells_views(batch.columns@),
            vcs == vector_config_views(options.vector_columns@),
            all_vectors(schema, cells, vcs.take(i as int)) == Ok::<Seq<Seq<u32>>, BuildErrorView>(
                vector_lists(vectors@),
            ),
        decreases options.vector_columns@.len() - i,
    {
        let ghost before = vector_lists(vectors@);
        proof {
            assert(vcs.take(i as int + 1).drop_last() =~= vcs.take(i as int));
            assert(vcs.take(i as int + 1).last() == options.vector_columns@[i as int]@);
        }
        match take_vectors(batch, &options.vector_columns[i]) {
            Ok(v) => {
                vectors.push(v);
                assert(vector_lists(vectors@) =~= before.push(v@));
            },
            Err(e) => {
                proof {
                    lemma_all_vectors_prefix(schema, cells, vcs, i as int + 1);
                }
                return Err(e);
            },
        }
        i = i + 1;
    }
    let mut scalar: Vec<usize> = Vec::new();
    let mut k: usize = 0;
    proof {
        assert(vcs.take(i as int) =~= vcs);
        assert(schema.take(0) =~= Seq::empty());
        assert(indices(scalar@) =~= columns_named(schema, Seq::empty()));
    }
    while k < options.schema.len()
        invariant
            k <= options.schema@.len(),
            schema == schema_view(batch.schema@),
            schema == schema_view(options.schema@),
            vcs == vector_config_views(options.vector_columns@),
            names == vector_names(vcs),
            indices(scalar@) == columns_named(
                schema,
                without_names(schema.take(k as int), names),
            ),
            forall|j: int| 0 <= j < scalar@.len() ==> #[trigger] scalar@[j] < batch.schema@.len(),
        decreases options.schema@.len() - k,
    {
        let ghost kept = without_names(schema.take(k as int), names);
        let ghost before = scalar@;
        proof {
            assert(schema.take(k as int + 1).drop_last() =~= schema.take(k as int));
            assert(schema.take(k as int + 1).last() == options.schema@[k as int]@);
        }
        if !is_vector_column(&options.vector_columns, options.schema[k].name.as_str()) {
            match index_of(&batch.schema, options.schema[k].name.as_str()) {
                Some(j) => {
                    scalar.push(j);
                    proof {
                        assert(schema[k as int] == options.schema@[k as int]@);
                        assert(indices(scalar@) =~= indices(before).push(j as int));
                        assert(columns_named(schema, kept.push(schema[k as int]))
                            =~= columns_named(schema, kept).push(j as int));
                        assert(indices(scalar@) =~= columns_named(
                            schema,
                            kept.push(schema[k as int]),
                        ));
                    }
                },
                None => {
                    proof {
                        lemma_field_index_found(schema, k as int, 0);
                        assert(false);
                    }
                },
            }
        }
        k = k + 1;
    }
    proof {
        assert(schema.take(k as int) =~= schema);
    }
    Ok(SplitBatch { scalar, rows: batch.rows, vectors })
}

// ---------------------------------------------------------------- laws

/// A column is found at the first place that has its name.
pub proof fn columns_are_found_at_their_place(s: Seq<FieldView>, name: Seq<char>, from: int)
    requires
        0 <= from <= s.len(),
        forall|j: int| 0 <= j < from ==> (#[trigger] s[j]).name != name,
    ensures
        field_index(s, name, from) matches Some(i) ==> first_at(s, name, i),
        forall|i: int| #[trigger] first_at(s, name, i) ==> field_index(s, name, from) == Some(i),
    decreases s.len() - from,
{
    if from < s.len() {
        if s[from].name == name {
            assert(first_at(s, name, from));
        } else {
            columns_are_found_at_their_place(s, name, from + 1);
        }
    }
}

/// That a column holds a vector of the dimension in every row, with these
/// patterns one behind the other.
pub open spec fn holds_vectors(c: CellsView, dim: usize, v: Seq<u32>) -> bool {
    match c {
        CellsView::Scalar(_) => false,
        CellsView::Vectors { list_size, valid, items, .. } => {
            &&& list_len(list_size) == dim
            &&& forall|i: int| 0 <= i < valid.len() ==> #[trigger] valid[i]
            &&& items matches Some(w) && v.len() == w.len() && forall|i: int|
                0 <= i < w.len() ==> #[trigger] w[i] == Some(v[i])
        },
    }
}

/// The null rows that an error names are null rows, in their order, and all of
/// them where there are no more than it names. Null rows that it does not name
/// stand behind those that it names.
pub proof fn nulls_are_named(valid: Seq<bool>, n: int, max: nat)
    requires
        0 <= n <= valid.len() <= usize::MAX,
    ensures
        first_null_rows(valid, n, max).len() <= max,
        forall|k: int|
            0 <= k < first_null_rows(valid, n, max).len() ==> (#[trigger] first_null_rows(
                valid,
                n,
                max,
            )[k]) < n && !valid[first_null_rows(valid, n, max)[k] as int],
        forall|k: int, m: int|
            0 <= k < m < first_null_rows(valid, n, max).len() ==> #[trigger] first_null_rows(
                valid,
                n,
                max,
            )[k] < #[trigger] first_null_rows(valid, n, max)[m],
        first_null_rows(valid, n, max).len() < max ==> forall|i: int|
            0 <= i < n && !#[trigger] valid[i] ==> first_null_rows(valid, n, max).contains(
                i as usize,
            ),
        max > 0 ==> (first_null_rows(valid, n, max).len() == 0 <==> forall|i: int|
            0 <= i < n ==> #[trigger] valid[i]),
        forall|i: int, k: int|
            0 <= i < n && !#[trigger] valid[i] && !first_null_rows(valid, n, max).contains(
                i as usize,
            ) && 0 <= k < first_null_rows(valid, n, max).len() ==> (#[trigger] first_null_rows(
                valid,
                n,
                max,
            )[k]) < i,
    decreases n,
{
    if n > 0 {
        nulls_are_named(valid, n - 1, max);
        let (all, head) = (first_null_rows(valid, n, max), first_null_rows(valid, n - 1, max));
        assert forall|k: int| 0 <= k < all.len() implies (#[trigger] all[k]) < n
            && !valid[all[k] as int] by {
            if k < head.len() {
                assert(all[k] == head[k]);
            }
        }
        assert forall|k: int, m: int| 0 <= k < m < all.len() implies #[trigger] all[k]
            < #[trigger] all[m] by {
            assert(all[k] == head[k]);
            if m < head.len() {
                assert(all[m] == head[m]);
            }
        }
        if all.len() < max {
            assert forall|i: int| 0 <= i < n && !#[trigger] valid[i] implies all.contains(
                i as usize,
            ) by {
                if i < n - 1 {
                    assert(head.contains(i as usize));
                    let k = choose|k: int| 0 <= k < head.len() && head[k] == i as usize;
                    assert(all[k] == i as usize);
                } else {
                    assert(all[head.len() as int] == i as usize);
                }
            }
        }
        if all.len() == 0 && max > 0 {
            assert forall|i: int| 0 <= i < n implies #[trigger] valid[i] by {
                if i == n - 1 && !valid[i] {
                    assert(all.len() == head.len() + 1);
                }
            }
        }
        if max > 0 && all.len() > 0 {
            assert(!valid[all[0] as int]);
        }
        assert forall|i: int, k: int|
            0 <= i < n && !#[trigger] valid[i] && !all.contains(i as usize) && 0 <= k
                < all.len() implies (#[trigger] all[k]) < i by {
            if head.contains(i as usize) {
                let m = choose|m: int| 0 <= m < head.len() && head[m] == i as usize;
                assert(all[m] == i as usize);
            }
            if all.len() > head.len() {
                assert(all[head.len() as int] == (n - 1) as usize);
                assert(head.len() < max);
                if i < n - 1 {
                    assert(head.contains(i as usize));
                }
            } else {
                assert(all[k] == head[k]);
            }
        }
    }
}

/// The vectors that are taken out of a batch are those of the columns that the
/// options name: each column holds a vector of its dimension in every row, and
/// no item is null. Where every column does, they are taken.
pub proof fn vectors_are_taken_as_they_stand(
    schema: Seq<FieldView>,
    columns: Seq<CellsView>,
    vcs: Seq<VectorConfigView>,
    k: int,
    i: int,
)
    requires
        0 <= k < vcs.len(),
        first_at(schema, vcs[k].column, i),
        all_vectors(schema, columns, vcs) is Ok,
        columns[i] matches CellsView::Vectors { valid, items, .. } ==> valid.len() <= usize::MAX && (
        items matches Some(w) ==> w.len() <= usize::MAX),
    ensures
        all_vectors(schema, columns, vcs)->Ok_0.len() == vcs.len(),
        holds_vectors(columns[i], vcs[k].dim, all_vectors(schema, columns, vcs)->Ok_0[k]),
    decreases vcs.len(),
{
    let rest = vcs.drop_last();
    lemma_vectors_counted(schema, columns, vcs);
    lemma_vectors_counted(schema, columns, rest);
    if k < rest.len() {
        vectors_are_taken_as_they_stand(schema, columns, rest, k, i);
    } else {
        lemma_vectors_of(schema, columns, vcs[k], i);
    }
}

proof fn lemma_vectors_counted(
    schema: Seq<FieldView>,
    columns: Seq<CellsView>,
    vcs: Seq<VectorConfigView>,
)
    requires
        all_vectors(schema, columns, vcs) is Ok,
    ensures
        all_vectors(schema, columns, vcs)->Ok_0.len() == vcs.len(),
    decreases vcs.len(),
{
    if vcs.len() > 0 {
        lemma_vectors_counted(schema, columns, vcs.drop_last());
    }
}

proof fn lemma_vectors_of(
    schema: Seq<FieldView>,
    columns: Seq<CellsView>,
    vc: VectorConfigView,
    i: int,
)
    requires
        first_at(schema, vc.column, i),
        columns[i] matches CellsView::Vectors { valid, items, .. } ==> valid.len() <= usize::MAX && (
        items matches Some(w) ==> w.len() <= usize::MAX),
    ensures
        vectors_of(schema, columns, vc) matches Ok(v) ==> holds_vectors(columns[i], vc.dim, v),
        forall|v: Seq<u32>| #[trigger]
            holds_vectors(columns[i], vc.dim, v) ==> vectors_of(schema, columns, vc) == Ok::<
                Seq<u32>,
                BuildErrorView,
            >(v),
{
    columns_are_found_at_their_place(schema, vc.column, 0);
    match columns[i] {
        CellsView::Vectors { valid, items, .. } => {
            nulls_are_named(valid, valid.len() as int, MAX_NULLS_NAMED as nat);
            match items {
                Some(w) => {
                    let there = present(w);
                    nulls_are_named(there, w.len() as int, MAX_NULLS_NAMED as nat);
                    if forall|j: int| 0 <= j < w.len() ==> #[trigger] there[j] {
                        assert forall|j: int| 0 <= j < w.len() implies #[trigger] w[j] == Some(
                            patterns(w)[j],
                        ) by {
                            assert(there[j]);
                        }
                    }
                    assert forall|v: Seq<u32>| #[trigger]
                        holds_vectors(columns[i], vc.dim, v) implies vectors_of(
                        schema,
                        columns,
                        vc,
                    ) == Ok::<Seq<u32>, BuildErrorView>(v) by {
                        assert forall|j: int| 0 <= j < w.len() implies #[trigger] there[j] by {
                            assert(w[j] == Some(v[j]));
                        }
                        assert(patterns(w) =~= v);
                    }
                },
                None => {},
            }
        },
        CellsView::Scalar(_) => {},
    }
}

/// A column that holds a vector of its dimension in every row is taken, with the
/// patterns that it holds.
pub proof fn sound_vectors_are_taken(
    schema: Seq<FieldView>,
    columns: Seq<CellsView>,
    vc: VectorConfigView,
    i: int,
    v: Seq<u32>,
)
    requires
        first_at(schema, vc.column, i),
        holds_vectors(columns[i], vc.dim, v),
        columns[i] matches CellsView::Vectors { valid, items, .. } ==> valid.len() <= usize::MAX && (
        items matches Some(w) ==> w.len() <= usize::MAX),
    ensures
        vectors_of(schema, columns, vc) matches Ok(w) && w == v,
{
    lemma_vectors_of(schema, columns, vc, i);
}

/// What is told of a column whose vectors cannot be taken: that it is not there,
/// that it holds no vectors, or vectors of another size, or the first five rows
/// without a vector.
pub proof fn faults_of_vectors_are_told(
    schema: Seq<FieldView>,
    columns: Seq<CellsView>,
    vc: VectorConfigView,
    i: int,
)
    ensures
        (forall|j: int| 0 <= j < schema.len() ==> (#[trigger] schema[j]).name != vc.column)
            ==> vectors_of(schema, columns, vc) == Err::<Seq<u32>, BuildErrorView>(
            BuildErrorView::VectorColumnMissing { column: vc.column },
        ),
        first_at(schema, vc.column, i) ==> match columns[i] {
            CellsView::Scalar(c) => vectors_of(schema, columns, vc) == Err::<
                Seq<u32>,
                BuildErrorView,
            >(
                BuildErrorView::VectorColumnNotFixedSizeList {
                    column: vc.column,
                    dim: vc.dim,
                    actual: c.data_type.name,
                },
            ),
            CellsView::Vectors { list_size, valid, .. } => {
                &&& list_size >= 0 && list_size != vc.dim ==> vectors_of(schema, columns, vc)
                    == Err::<Seq<u32>, BuildErrorView>(
                    BuildErrorView::VectorColumnDimMismatch {
                        column: vc.column,
                        expected: vc.dim,
                        actual: list_size as usize,
                    },
                )
                &&& list_size == vc.dim && valid.len() <= usize::MAX && valid.contains(false)
                    ==> vectors_of(schema, columns, vc) == Err::<Seq<u32>, BuildErrorView>(
                    BuildErrorView::VectorColumnHasNulls {
                        column: vc.column,
                        first_nulls: first_null_rows(valid, valid.len() as int, 5),
                    },
                )
            },
        },
{
    columns_are_found_at_their_place(schema, vc.column, 0);
    if first_at(schema, vc.column, i) {
        match columns[i] {
            CellsView::Scalar(c) => {},
            CellsView::Vectors { list_size, valid, .. } => {
                lemma_no_nulls(valid, valid.len() as int, 5);
                if valid.contains(false) {
                    let k = choose|k: int| 0 <= k < valid.len() && valid[k] == false;
                    assert(!valid[k]);
                }
            },
        }
    }
}

/// A column can stand in a field of its type: in one without nulls just where
/// all its rows are there.
pub proof fn columns_stand_in_fields_of_their_type(c: CellsView, f: FieldView)
    ensures
        fits_field(c, f) <==> match c {
            CellsView::Scalar(s) => s.data_type == f.data_type && (f.nullable || !s.values.contains(
                None,
            )),
            CellsView::Vectors { data_type, valid, .. } => data_type == f.data_type && (f.nullable
                || !valid.contains(false)),
        },
{
    match c {
        CellsView::Scalar(s) => {
            if s.values.contains(None) {
                let i = choose|i: int| 0 <= i < s.values.len() && s.values[i] is None;
                assert(cell_null(c, i));
            }
            assert forall|i: int| 0 <= i < cells_rows(c) && #[trigger] cell_null(
                c,
                i,
            ) implies s.values.contains(None) by {
                assert(s.values[i] is None);
                assert(s.values.contains(s.values[i]));
            }
        },
        CellsView::Vectors { valid, .. } => {
            if valid.contains(false) {
                let i = choose|i: int| 0 <= i < valid.len() && valid[i] == false;
                assert(cell_null(c, i));
            }
            assert forall|i: int| 0 <= i < cells_rows(c) && #[trigger] cell_null(
                c,
                i,
            ) implies valid.contains(false) by {
                assert(valid[i] == false);
            }
        },
    }
}

/// Of several vector columns at fault the first one's fault is told.
pub proof fn first_column_at_fault_is_told(
    schema: Seq<FieldView>,
    columns: Seq<CellsView>,
    vcs: Seq<VectorConfigView>,
    i: int,
)
    requires
        0 <= i < vcs.len(),
        forall|j: int| 0 <= j < i ==> vectors_of(schema, columns, #[trigger] vcs[j]) is Ok,
        vectors_of(schema, columns, vcs[i]) is Err,
    ensures
        all_vectors(schema, columns, vcs) is Err,
        all_vectors(schema, columns, vcs)->Err_0 == vectors_of(schema, columns, vcs[i])->Err_0,
    decreases vcs.len(),
{
    let rest = vcs.drop_last();
    assert forall|j: int| 0 <= j < rest.len() implies #[trigger] rest[j] == vcs[j] by {}
    if i < rest.len() {
        assert forall|j: int| 0 <= j < i implies vectors_of(
            schema,
            columns,
            #[trigger] rest[j],
        ) is Ok by {
            assert(rest[j] == vcs[j]);
        }
        first_column_at_fault_is_told(schema, columns, rest, i);
    } else {
        assert forall|j: int| 0 <= j < rest.len() implies vectors_of(
            schema,
            columns,
            #[trigger] rest[j],
        ) is Ok by {
            assert(rest[j] == vcs[j]);
        }
        lemma_all_sound(schema, columns, rest);
    }
}

proof fn lemma_all_sound(
    schema: Seq<FieldView>,
    columns: Seq<CellsView>,
    vcs: Seq<VectorConfigView>,
)
    requires
        forall|j: int| 0 <= j < vcs.len() ==> vectors_of(schema, columns, #[trigger] vcs[j]) is Ok,
    ensures
        all_vectors(schema, columns, vcs) is Ok,
    decreases vcs.len(),
{
    if vcs.len() > 0 {
        let rest = vcs.drop_last();
        assert forall|j: int| 0 <= j < rest.len() implies vectors_of(
            schema,
            columns,
            #[trigger] rest[j],
        ) is Ok by {
            assert(rest[j] == vcs[j]);
        }
        assert(vcs[vcs.len() - 1] == vcs.last());
        lemma_all_sound(schema, columns, rest);
    }
}

} // verus!
