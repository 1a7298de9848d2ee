//! Column types, scalar values and the least and greatest values of columns.

use vstd::prelude::*;
use vstd::utf8::encode_utf8;

use crate::column_map::{ascending, inserted, lookup, lookup_after_insert, ColumnMap};
use crate::ieee::{
    is_nan32, is_nan64, number32, number32_by_pattern, number64, number64_by_pattern,
};
use crate::lex::{bytes_le, first_difference_decides, lex_le, precedes_at};

verus! {

// ---------------------------------------------------------------- types

/// What the type of a column is, as far as the table looks into it.
#[derive(Clone, Copy, PartialEq, Eq, Structural, Debug)]
pub enum TypeKind {
    Int8,
    Int16,
    Int32,
    Int64,
    UInt8,
    UInt16,
    UInt32,
    UInt64,
    Float32,
    Float64,
    Boolean,
    Utf8,
    LargeUtf8,
    Decimal128 { precision: u8, scale: i8 },
    Timestamp,
    FixedSizeList { float32_items: bool, list_size: i32 },
    Other,
}

/// The type of a column: its kind, and the text that names it in full.
#[derive(Debug)]
pub struct DataType {
    pub kind: TypeKind,
    pub name: String,
}

pub struct DataTypeView {
    pub kind: TypeKind,
    pub name: Seq<char>,
}

impl View for DataType {
    type V = DataTypeView;

    open spec fn view(&self) -> DataTypeView {
        DataTypeView { kind: self.kind, name: self.name@ }
    }
}

impl Clone for DataType {
    fn clone(&self) -> (r: Self)
        ensures
            r@ == self@,
    {
        DataType { kind: self.kind, name: self.name.clone() }
    }
}

impl DataType {
    /// Whether two types are the same.
    pub fn same(&self, other: &DataType) -> (r: bool)
        ensures
            r == (self@ == other@),
    {
        self.kind == other.kind && self.name == other.name
    }
}

// ---------------------------------------------------------------- values

/// A value of a scalar column. Integers and decimals stand as their integer,
/// floating-point numbers as their bit pattern.
#[derive(Debug)]
pub enum ScalarValue {
    Int(i128),
    Float(u64),
    Bool(bool),
    Text(String),
}

pub enum ValueView {
    Int(i128),
    Float(u64),
    Bool(bool),
    Text(Seq<char>),
}

impl View for ScalarValue {
    type V = ValueView;

    open spec fn view(&self) -> ValueView {
        match *self {
            ScalarValue::Int(x) => ValueView::Int(x),
            ScalarValue::Float(x) => ValueView::Float(x),
            ScalarValue::Bool(x) => ValueView::Bool(x),
            ScalarValue::Text(x) => ValueView::Text(x@),
        }
    }
}

impl Clone for ScalarValue {
    fn clone(&self) -> (r: Self)
        ensures
            r@ == self@,
    {
        match self {
            ScalarValue::Int(x) => ScalarValue::Int(*x),
            ScalarValue::Float(x) => ScalarValue::Float(*x),
            ScalarValue::Bool(x) => ScalarValue::Bool(*x),
            ScalarValue::Text(x) => ScalarValue::Text(x.clone()),
        }
    }
}

/// One value of a type, or none (a null, or no row at all).
#[derive(Debug)]
pub struct Scalar {
    pub data_type: DataType,
    pub value: Option<ScalarValue>,
}

pub struct ScalarView {
    pub data_type: DataTypeView,
    pub value: Option<ValueView>,
}

/// The view of an optional value.
pub open spec fn opt_value(v: Option<ScalarValue>) -> Option<ValueView> {
    match v {
        Some(x) => Some(x@),
        None => None,
    }
}

impl View for Scalar {
    type V = ScalarView;

    open spec fn view(&self) -> ScalarView {
        ScalarView { data_type: self.data_type@, value: opt_value(self.value) }
    }
}

impl Clone for Scalar {
    fn clone(&self) -> (r: Self)
        ensures
            r@ == self@,
    {
        Scalar {
            data_type: self.data_type.clone(),
            value: match &self.value {
                Some(v) => Some(v.clone()),
                None => None,
            },
        }
    }
}

/// The form in which the values of a kind are held.
pub open spec fn fits(kind: TypeKind, v: ValueView) -> bool {
    match kind {
        TypeKind::Int8 => v matches ValueView::Int(x) && i8::MIN <= x <= i8::MAX,
        TypeKind::Int16 => v matches ValueView::Int(x) && i16::MIN <= x <= i16::MAX,
        TypeKind::Int32 => v matches ValueView::Int(x) && i32::MIN <= x <= i32::MAX,
        TypeKind::Int64 => v matches ValueView::Int(x) && i64::MIN <= x <= i64::MAX,
        TypeKind::UInt8 => v matches ValueView::Int(x) && 0 <= x <= u8::MAX,
        TypeKind::UInt16 => v matches ValueView::Int(x) && 0 <= x <= u16::MAX,
        TypeKind::UInt32 => v matches ValueView::Int(x) && 0 <= x <= u32::MAX,
        TypeKind::UInt64 => v matches ValueView::Int(x) && 0 <= x <= u64::MAX,
        TypeKind::Float32 => v matches ValueView::Float(x) && x <= u32::MAX,
        TypeKind::Float64 => v is Float,
        TypeKind::Boolean => v is Bool,
        TypeKind::Utf8 | TypeKind::LargeUtf8 => v is Text,
        TypeKind::Decimal128 { .. } => v is Int,
        TypeKind::Timestamp => v matches ValueView::Int(x) && i64::MIN <= x <= i64::MAX,
        TypeKind::FixedSizeList { .. } | TypeKind::Other => true,
    }
}

/// Every value of a column has the form of its type.
pub open spec fn well_typed_column(kind: TypeKind, s: Seq<Option<ValueView>>) -> bool {
    forall|i: int| 0 <= i < s.len() ==> (#[trigger] s[i] matches Some(v) ==> fits(kind, v))
}

/// Whether `Decimal128` columns of this precision and scale can be made.
pub open spec fn decimal_valid(precision: u8, scale: i8) -> bool {
    1 <= precision <= 38 && scale <= precision
}

/// The kinds whose values are ordered here.
pub open spec fn has_order(kind: TypeKind) -> bool {
    match kind {
        TypeKind::Timestamp | TypeKind::FixedSizeList { .. } | TypeKind::Other => false,
        TypeKind::Decimal128 { precision, scale } => decimal_valid(precision, scale),
        _ => true,
    }
}

/// The place of a floating-point number in the total order of bit patterns:
/// negative numbers by falling magnitude, then positive ones, with the NaNs
/// outside the infinities.
pub open spec fn float_rank(kind: TypeKind, bits: u64) -> int {
    let half = if kind is Float32 {
        0x8000_0000int
    } else {
        0x8000_0000_0000_0000int
    };
    if bits < half {
        bits as int
    } else {
        half - 1 - bits
    }
}

/// The order of the values of a kind.
pub open spec fn value_le(kind: TypeKind, a: ValueView, b: ValueView) -> bool {
    match (a, b) {
        (ValueView::Int(x), ValueView::Int(y)) => x <= y,
        (ValueView::Float(x), ValueView::Float(y)) => float_rank(kind, x) <= float_rank(kind, y),
        (ValueView::Bool(x), ValueView::Bool(y)) => x ==> y,
        (ValueView::Text(x), ValueView::Text(y)) => lex_le(encode_utf8(x), encode_utf8(y)),
        _ => false,
    }
}

/// The least of the values that are there.
pub open spec fn least(kind: TypeKind, s: Seq<Option<ValueView>>) -> Option<ValueView>
    decreases s.len(),
{
    if s.len() == 0 {
        None
    } else {
        match (least(kind, s.drop_last()), s.last()) {
            (None, x) => x,
            (Some(a), None) => Some(a),
            (Some(a), Some(b)) => if value_le(kind, a, b) {
                Some(a)
            } else {
                Some(b)
            },
        }
    }
}

/// The greatest of the values that are there.
pub open spec fn greatest(kind: TypeKind, s: Seq<Option<ValueView>>) -> Option<ValueView>
    decreases s.len(),
{
    if s.len() == 0 {
        None
    } else {
        match (greatest(kind, s.drop_last()), s.last()) {
            (None, x) => x,
            (Some(a), None) => Some(a),
            (Some(a), Some(b)) => if value_le(kind, b, a) {
                Some(a)
            } else {
                Some(b)
            },
        }
    }
}

/// The least and the greatest value of a column; none for kinds without an
/// order and for columns without a value.
pub open spec fn extremes(t: DataTypeView, s: Seq<Option<ValueView>>) -> Option<
    (ScalarView, ScalarView),
> {
    if has_order(t.kind) && least(t.kind, s) is Some {
        Some(
            (
                ScalarView { data_type: t, value: least(t.kind, s) },
                ScalarView { data_type: t, value: greatest(t.kind, s) },
            ),
        )
    } else {
        None
    }
}

proof fn lemma_value_le_total(kind: TypeKind, a: ValueView, b: ValueView)
    requires
        has_order(kind),
        fits(kind, a),
        fits(kind, b),
    ensures
        value_le(kind, a, b) || value_le(kind, b, a),
        value_le(kind, a, a),
        value_le(kind, a, b) && value_le(kind, b, a) ==> a == b,
{
    match (a, b) {
        (ValueView::Text(x), ValueView::Text(y)) => {
            crate::lex::lex_le_total(encode_utf8(x), encode_utf8(y));
            crate::lex::lex_le_reflexive(encode_utf8(x));
            vstd::utf8::encode_utf8_decode_utf8(x);
            vstd::utf8::encode_utf8_decode_utf8(y);
            if value_le(kind, a, b) && value_le(kind, b, a) {
                crate::lex::lex_le_antisymmetric(encode_utf8(x), encode_utf8(y));
            }
        },
        _ => {},
    }
}

/// The order of values is transitive.
pub proof fn value_le_is_transitive(kind: TypeKind, a: ValueView, b: ValueView, c: ValueView)
    requires
        value_le(kind, a, b),
        value_le(kind, b, c),
    ensures
        value_le(kind, a, c),
{
    match (a, b, c) {
        (ValueView::Text(x), ValueView::Text(y), ValueView::Text(z)) => {
            crate::lex::lex_le_transitive(encode_utf8(x), encode_utf8(y), encode_utf8(z));
        },
        _ => {},
    }
}

/// The least and the greatest value of a column are values of it, and every
/// value of it lies between them.
pub proof fn extremes_bound_the_column(kind: TypeKind, s: Seq<Option<ValueView>>)
    requires
        has_order(kind),
        well_typed_column(kind, s),
    ensures
        least(kind, s) is Some <==> exists|i: int| 0 <= i < s.len() && #[trigger] s[i] is Some,
        least(kind, s) is Some <==> greatest(kind, s) is Some,
        least(kind, s) is Some ==> {
            &&& s.contains(least(kind, s))
            &&& s.contains(greatest(kind, s))
            &&& fits(kind, least(kind, s)->0)
            &&& fits(kind, greatest(kind, s)->0)
        },
        forall|i: int|
            0 <= i < s.len() ==> (#[trigger] s[i] matches Some(v) ==> value_le(
                kind,
                least(kind, s)->0,
                v,
            ) && value_le(kind, v, greatest(kind, s)->0)),
    decreases s.len(),
{
    if s.len() > 0 {
        let p = s.drop_last();
        assert forall|i: int| 0 <= i < p.len() implies (#[trigger] p[i] matches Some(v) ==> fits(
            kind,
            v,
        )) by {
            assert(p[i] == s[i]);
        }
        extremes_bound_the_column(kind, p);
        let n = s.len() - 1;
        assert(s[n] == s.last());
        let lo = least(kind, p);
        let hi = greatest(kind, p);
        if lo is Some {
            let i = choose|i: int| 0 <= i < p.len() && p[i] == lo;
            let j = choose|j: int| 0 <= j < p.len() && p[j] == hi;
            assert(s[i] == lo && s[j] == hi);
            if s.last() is Some {
                lemma_value_le_total(kind, lo->0, s.last()->0);
                lemma_value_le_total(kind, hi->0, s.last()->0);
                lemma_value_le_total(kind, s.last()->0, hi->0);
            }
        }
        if s.last() is Some {
            lemma_value_le_total(kind, s.last()->0, s.last()->0);
            assert(s[n] is Some);
        } else if lo is Some {
            let i = choose|i: int| 0 <= i < p.len() && #[trigger] p[i] is Some;
            assert(s[i] is Some);
        }
        if exists|i: int| 0 <= i < s.len() && #[trigger] s[i] is Some {
            let i = choose|i: int| 0 <= i < s.len() && #[trigger] s[i] is Some;
            if i < n {
                assert(p[i] is Some);
            }
        }
        assert forall|i: int| 0 <= i < s.len() implies (#[trigger] s[i] matches Some(v)
            ==> value_le(kind, least(kind, s)->0, v) && value_le(kind, v, greatest(kind, s)->0)) by {
            if s[i] is Some {
                let v = s[i]->0;
                if i < n {
                    assert(p[i] == s[i]);
                    if s.last() is Some {
                        let b = s.last()->0;
                        if !value_le(kind, lo->0, b) {
                            value_le_is_transitive(kind, b, lo->0, v);
                        }
                        if !value_le(kind, b, hi->0) {
                            value_le_is_transitive(kind, v, hi->0, b);
                        }
                    }
                }
            }
        }
    }
}

/// Whether `a` is at most `b` in the order of a kind.
pub fn value_at_most(kind: TypeKind, a: &ScalarValue, b: &ScalarValue) -> (r: bool)
    ensures
        r == value_le(kind, a@, b@),
{
    match (a, b) {
        (ScalarValue::Int(x), ScalarValue::Int(y)) => *x <= *y,
        (ScalarValue::Float(x), ScalarValue::Float(y)) => float_at_most(kind, *x, *y),
        (ScalarValue::Bool(x), ScalarValue::Bool(y)) => !*x || *y,
        (ScalarValue::Text(x), ScalarValue::Text(y)) => bytes_le(x.as_str().as_bytes(), y.as_str().as_bytes()),
        _ => false,
    }
}

fn float_at_most(kind: TypeKind, x: u64, y: u64) -> (r: bool)
    ensures
        r == (float_rank(kind, x) <= float_rank(kind, y)),
{
    let half: u64 = match kind {
        TypeKind::Float32 => 0x8000_0000,
        _ => 0x8000_0000_0000_0000,
    };
    if x < half {
        y < half && x <= y
    } else {
        y < half || x >= y
    }
}

fn kind_has_order(kind: TypeKind) -> (r: bool)
    ensures
        r == has_order(kind),
{
    match kind {
        TypeKind::Timestamp => false,
        TypeKind::FixedSizeList { .. } => false,
        TypeKind::Other => false,
        TypeKind::Decimal128 { precision, scale } => 1 <= precision && precision <= 38
            && scale as i16 <= precision as i16,
        _ => true,
    }
}

// ---------------------------------------------------------------- columns

/// A column of scalar values, some of them null.
#[derive(Debug)]
pub struct ScalarColumn {
    pub data_type: DataType,
    pub values: Vec<Option<ScalarValue>>,
}

/// The views of a column's values.
pub open spec fn column_values(values: Seq<Option<ScalarValue>>) -> Seq<Option<ValueView>> {
    Seq::new(values.len(), |i: int| opt_value(values[i]))
}

pub struct ColumnView {
    pub data_type: DataTypeView,
    pub values: Seq<Option<ValueView>>,
}

impl View for ScalarColumn {
    type V = ColumnView;

    open spec fn view(&self) -> ColumnView {
        ColumnView { data_type: self.data_type@, values: column_values(self.values@) }
    }
}

impl Clone for ScalarColumn {
    fn clone(&self) -> (r: Self)
        ensures
            r@ == self@,
    {
        let mut values: Vec<Option<ScalarValue>> = Vec::new();
        let mut i: usize = 0;
        while i < self.values.len()
            invariant
                i <= self.values@.len(),
                values@.len() == i,
                forall|k: int|
                    0 <= k < i ==> opt_value(#[trigger] values@[k]) == opt_value(self.values@[k]),
            decreases self.values@.len() - i,
        {
            let v = match &self.values[i] {
                Some(x) => Some(x.clone()),
                None => None,
            };
            values.push(v);
            i = i + 1;
        }
        assert(column_values(values@) =~= column_values(self.values@));
        ScalarColumn { data_type: self.data_type.clone(), values }
    }
}

/// The least and the greatest value of a column, as scalars of its type. None
/// where the type has no order here, or where no value is there.
pub fn column_min_max(col: &ScalarColumn) -> (r: Option<(Scalar, Scalar)>)
    ensures
        match r {
            Some(pair) => extremes(col@.data_type, col@.values) == Some((pair.0@, pair.1@)),
            None => extremes(col@.data_type, col@.values) is None,
        },
{
    let kind = col.data_type.kind;
    if !kind_has_order(kind) {
        return None;
    }
    let mut at: Option<(usize, usize)> = None;
    let mut i: usize = 0;
    let ghost all = col@.values;
    while i < col.values.len()
        invariant
            all == column_values(col.values@),
            kind == col.data_type.kind,
            i <= col.values@.len(),
            match at {
                None => least(kind, all.take(i as int)) is None && greatest(
                    kind,
                    all.take(i as int),
                ) is None,
                Some(pair) => {
                    &&& pair.0 < i
                    &&& pair.1 < i
                    &&& col.values@[pair.0 as int] is Some
                    &&& col.values@[pair.1 as int] is Some
                    &&& least(kind, all.take(i as int)) == all[pair.0 as int]
                    &&& greatest(kind, all.take(i as int)) == all[pair.1 as int]
                },
            },
        decreases col.values@.len() - i,
    {
        proof {
            let next = all.take(i as int + 1);
            assert(next.drop_last() =~= all.take(i as int));
            assert(next.last() == all[i as int]);
        }
        match &col.values[i] {
            Some(v) => {
                at = match at {
                    None => Some((i, i)),
                    Some((lo, hi)) => {
                        let new_lo: usize = match &col.values[lo] {
                            Some(m) => if value_at_most(kind, m, v) {
                                lo
                            } else {
                                i
                            },
                            None => i,
                        };
                        let new_hi: usize = match &col.values[hi] {
                            Some(m) => if value_at_most(kind, v, m) {
                                hi
                            } else {
                                i
                            },
                            None => i,
                        };
                        Some((new_lo, new_hi))
                    },
                };
            },
            None => {},
        }
        i = i + 1;
    }
    proof {
        assert(all.take(i as int) =~= all);
    }
    match at {
        None => None,
        Some((lo, hi)) => match (&col.values[lo], &col.values[hi]) {
            (Some(a), Some(b)) => Some(
                (
                    Scalar { data_type: col.data_type.clone(), value: Some(a.clone()) },
                    Scalar { data_type: col.data_type.clone(), value: Some(b.clone()) },
                ),
            ),
            _ => None,
        },
    }
}

/// One column after another: columns of one type join, others do not.
pub open spec fn concatenated(cols: Seq<ColumnView>) -> Option<ColumnView>
    decreases cols.len(),
{
    if cols.len() == 0 {
        None
    } else if cols.len() == 1 {
        Some(cols[0])
    } else {
        match concatenated(cols.drop_last()) {
            Some(c) => if c.data_type == cols.last().data_type {
                Some(ColumnView { data_type: c.data_type, values: c.values + cols.last().values })
            } else {
                None
            },
            None => None,
        }
    }
}

/// The views of borrowed columns.
pub open spec fn column_views(cols: Seq<&ScalarColumn>) -> Seq<ColumnView> {
    Seq::new(cols.len(), |i: int| cols[i]@)
}

/// Join columns of one type into one.
pub fn concat_columns(cols: &[&ScalarColumn]) -> (r: Option<ScalarColumn>)
    ensures
        match r {
            Some(c) => concatenated(column_views(cols@)) == Some(c@),
            None => concatenated(column_views(cols@)) is None,
        },
{
    if cols.len() == 0 {
        return None;
    }
    let mut values: Vec<Option<ScalarValue>> = Vec::new();
    let mut i: usize = 0;
    let ghost views = column_views(cols@);
    while i < cols.len()
        invariant
            views == column_views(cols@),
            0 < cols@.len(),
            i <= cols@.len(),
            i == 0 ==> values@.len() == 0,
            i > 0 ==> concatenated(views.take(i as int)) == Some(
                ColumnView { data_type: cols@[0].data_type@, values: column_values(values@) },
            ),
        decreases cols@.len() - i,
    {
        proof {
            assert(views.take(i as int + 1).drop_last() =~= views.take(i as int));
        }
        let same = cols[i].data_type.same(&cols[0].data_type);
        if !same {
            proof {
                assert(i > 0);
                assert(concatenated(views.take(i as int + 1)) is None);
                lemma_concatenated_none(views, i as int + 1);
            }
            return None;
        }
        let ghost before = column_values(values@);
        let mut j: usize = 0;
        proof {
            assert(column_values(values@) =~= before + views[i as int].values.take(0));
        }
        while j < cols[i].values.len()
            invariant
                i < cols@.len(),
                views == column_views(cols@),
                j <= cols@[i as int].values@.len(),
                column_values(values@) == before + views[i as int].values.take(j as int),
            decreases cols@[i as int].values@.len() - j,
        {
            let v = match &cols[i].values[j] {
                Some(x) => Some(x.clone()),
                None => None,
            };
            let ghost prior = values@;
            let ghost added = opt_value(v);
            values.push(v);
            j = j + 1;
            proof {
                assert(added == views[i as int].values[j - 1]);
                assert(column_values(values@) =~= column_values(prior).push(added));
                assert(views[i as int].values.take(j as int) =~= views[i as int].values.take(
                    j - 1,
                ).push(added));
                assert(column_values(values@) =~= before + views[i as int].values.take(j as int));
            }
        }
        proof {
            assert(views[i as int].values.take(j as int) =~= views[i as int].values);
            if i == 0 {
                assert(before =~= Seq::<Option<ValueView>>::empty());
                assert(column_values(values@) =~= views[0].values);
                assert(views.take(1)[0] == views[0]);
            }
        }
        i = i + 1;
    }
    proof {
        assert(views.take(i as int) =~= views);
    }
    Some(ScalarColumn { data_type: cols[0].data_type.clone(), values })
}

proof fn lemma_concatenated_none(views: Seq<ColumnView>, n: int)
    requires
        1 < n <= views.len(),
        concatenated(views.take(n)) is None,
    ensures
        concatenated(views) is None,
    decreases views.len() - n,
{
    if n < views.len() {
        assert(views.take(n + 1).drop_last() =~= views.take(n));
        lemma_concatenated_none(views, n + 1);
    } else {
        assert(views.take(n) =~= views);
    }
}

// ---------------------------------------------------------------- stats

/// The least and the greatest value of each scalar column of a superfile.
#[derive(Debug)]
pub struct ScalarStatsTable {
    pub cols: ColumnMap<(Scalar, Scalar)>,
}

impl View for ScalarStatsTable {
    type V = Seq<(Seq<char>, (ScalarView, ScalarView))>;

    open spec fn view(&self) -> Seq<(Seq<char>, (ScalarView, ScalarView))> {
        self.cols@
    }
}

/// The columns of several batches.
pub open spec fn batch_columns(batches: Seq<Vec<ScalarColumn>>) -> Seq<Seq<ColumnView>> {
    Seq::new(batches.len(), |i: int| owned_columns(batches[i]@))
}

/// The columns that a list holds.
pub open spec fn owned_columns(s: Seq<ScalarColumn>) -> Seq<ColumnView> {
    Seq::new(s.len(), |i: int| s[i]@)
}

/// The columns at one place of several batches.
pub open spec fn columns_at(batches: Seq<Seq<ColumnView>>, idx: int) -> Seq<ColumnView> {
    Seq::new(batches.len(), |i: int| batches[i][idx])
}

/// The extremes of the columns at place `idx`, taken as one column.
pub open spec fn stats_at(batches: Seq<Seq<ColumnView>>, idx: int) -> Option<
    (ScalarView, ScalarView),
> {
    match concatenated(columns_at(batches, idx)) {
        Some(c) => extremes(c.data_type, c.values),
        None => None,
    }
}

/// The stats of the first `n` columns: each column with extremes stands under
/// its name.
pub open spec fn stats_of(
    names: Seq<Seq<char>>,
    batches: Seq<Seq<ColumnView>>,
    n: nat,
) -> Seq<(Seq<char>, (ScalarView, ScalarView))>
    decreases n,
{
    if n == 0 {
        Seq::empty()
    } else {
        let before = stats_of(names, batches, (n - 1) as nat);
        match stats_at(batches, n - 1) {
            Some(pair) => inserted(before, names[n - 1], pair),
            None => before,
        }
    }
}

/// The views of strings.
pub open spec fn names_of(names: Seq<String>) -> Seq<Seq<char>> {
    Seq::new(names.len(), |i: int| names[i]@)
}

impl ScalarStatsTable {
    /// No stats.
    pub fn new() -> (r: Self)
        ensures
            r@ == Seq::<(Seq<char>, (ScalarView, ScalarView))>::empty(),
    {
        ScalarStatsTable { cols: ColumnMap::new() }
    }

    /// The extremes of every column over all batches. `names` are the names of
    /// the scalar columns; each batch holds its columns in that order. Columns
    /// whose types differ between batches, whose type has no order, or that
    /// hold no value, are left out.
    pub fn from_batches(names: &[String], batches: &[Vec<ScalarColumn>]) -> (r: Self)
        requires
            forall|i: int| 0 <= i < batches@.len() ==> #[trigger] batches@[i]@.len() >= names@.len(),
        ensures
            r@ == stats_of(names_of(names@), batch_columns(batches@), names@.len()),
    {
        let mut cols: ColumnMap<(Scalar, Scalar)> = ColumnMap::new();
        let mut idx: usize = 0;
        while idx < names.len()
            invariant
                idx <= names@.len(),
                forall|i: int|
                    0 <= i < batches@.len() ==> #[trigger] batches@[i]@.len() >= names@.len(),
                cols@ == stats_of(names_of(names@), batch_columns(batches@), idx as nat),
            decreases names@.len() - idx,
        {
            let mut here: Vec<&ScalarColumn> = Vec::new();
            let mut b: usize = 0;
            while b < batches.len()
                invariant
                    idx < names@.len(),
                    forall|i: int|
                        0 <= i < batches@.len() ==> #[trigger] batches@[i]@.len() >= names@.len(),
                    b <= batches@.len(),
                    here@.len() == b,
                    forall|i: int| 0 <= i < b ==> (#[trigger] here@[i])@ == batches@[i]@[idx as int]@,
                decreases batches@.len() - b,
            {
                here.push(&batches[b][idx]);
                b = b + 1;
            }
            proof {
                assert(column_views(here@) =~= columns_at(batch_columns(batches@), idx as int));
            }
            match concat_columns(&here) {
                Some(c) => match column_min_max(&c) {
                    Some(pair) => {
                        cols.insert(names[idx].clone(), pair);
                    },
                    None => {},
                },
                None => {},
            }
            idx = idx + 1;
        }
        ScalarStatsTable { cols }
    }
}

// ---------------------------------------------------------------- laws

/// That a value is a pattern that is no number.
pub open spec fn is_nan(kind: TypeKind, v: ValueView) -> bool {
    match v {
        ValueView::Float(x) => if kind is Float32 {
            is_nan32(x as u32)
        } else {
            is_nan64(x)
        },
        _ => false,
    }
}

/// That a value is at most another: integers and floating-point values by the
/// numbers that they are, `false` before `true`, texts by the first byte in
/// which they differ.
pub open spec fn not_above(kind: TypeKind, a: ValueView, b: ValueView) -> bool {
    match (a, b) {
        (ValueView::Int(x), ValueView::Int(y)) => x <= y,
        (ValueView::Float(x), ValueView::Float(y)) => if kind is Float32 {
            number32(x as u32) <= number32(y as u32)
        } else {
            number64(x) <= number64(y)
        },
        (ValueView::Bool(x), ValueView::Bool(y)) => x == y || y,
        (ValueView::Text(x), ValueView::Text(y)) => exists|n: int|
            precedes_at(encode_utf8(x), encode_utf8(y), n),
        _ => false,
    }
}

/// The order of the values is that of what they stand for: the less one comes
/// first.
pub proof fn values_are_ordered_by_meaning(kind: TypeKind, a: ValueView, b: ValueView)
    requires
        has_order(kind),
        fits(kind, a),
        fits(kind, b),
        !is_nan(kind, a),
        !is_nan(kind, b),
    ensures
        value_le(kind, a, b) ==> not_above(kind, a, b),
        !not_above(kind, b, a) ==> value_le(kind, a, b),
        value_le(kind, a, b) || value_le(kind, b, a),
{
    lemma_value_le_total(kind, a, b);
    match (a, b) {
        (ValueView::Float(x), ValueView::Float(y)) => {
            if kind is Float32 {
                number32_by_pattern(x as u32, y as u32);
                number32_by_pattern(y as u32, x as u32);
            } else {
                number64_by_pattern(x, y);
                number64_by_pattern(y, x);
            }
        },
        (ValueView::Text(x), ValueView::Text(y)) => {
            first_difference_decides(encode_utf8(x), encode_utf8(y));
            first_difference_decides(encode_utf8(y), encode_utf8(x));
        },
        _ => {},
    }
}

/// What is no number stands outside all numbers: above them, or below them
/// where it has a sign.
pub proof fn no_number_stands_between(kind: TypeKind, a: u64, b: u64)
    requires
        kind is Float32 || kind is Float64,
        fits(kind, ValueView::Float(a)),
        fits(kind, ValueView::Float(b)),
        is_nan(kind, ValueView::Float(a)),
        !is_nan(kind, ValueView::Float(b)),
    ensures
        ({
            let signed = if kind is Float32 {
                a >= 0x8000_0000
            } else {
                a >= 0x8000_0000_0000_0000
            };
            let (x, y) = (ValueView::Float(a), ValueView::Float(b));
            &&& value_le(kind, x, y) <==> signed
            &&& value_le(kind, y, x) <==> !signed
        }),
{
    if kind is Float32 {
        let (x, y) = (a as int % 0x8000_0000, b as int % 0x8000_0000);
        assert(is_nan32(a as u32) <==> x > 0x7f80_0000);
        assert(is_nan32(b as u32) <==> y > 0x7f80_0000);
    } else {
        let (x, y) = (a as int % 0x8000_0000_0000_0000, b as int % 0x8000_0000_0000_0000);
        assert(is_nan64(a) <==> x > 0x7ff0_0000_0000_0000);
        assert(is_nan64(b) <==> y > 0x7ff0_0000_0000_0000);
    }
}

/// That columns are of one type that has an order, and hold values of it.
pub open spec fn alike(cols: Seq<ColumnView>, t: DataTypeView) -> bool {
    &&& has_order(t.kind)
    &&& forall|i: int|
        0 <= i < cols.len() ==> (#[trigger] cols[i]).data_type == t && well_typed_column(
            t.kind,
            cols[i].values,
        )
}

proof fn lemma_concatenated_holds(cols: Seq<ColumnView>, t: DataTypeView)
    requires
        cols.len() > 0,
        alike(cols, t),
    ensures
        concatenated(cols) matches Some(c) && c.data_type == t && well_typed_column(
            t.kind,
            c.values,
        ) && forall|i: int, k: int|
            0 <= i < cols.len() && 0 <= k < cols[i].values.len() ==> c.values.contains(
                #[trigger] cols[i].values[k],
            ),
        forall|x: Option<ValueView>| #[trigger]
            concatenated(cols)->0.values.contains(x) ==> exists|i: int|
                0 <= i < cols.len() && (#[trigger] cols[i]).values.contains(x),
    decreases cols.len(),
{
    let n = cols.len() - 1;
    let last = cols[n];
    if n > 0 {
        let rest = cols.drop_last();
        assert forall|i: int| 0 <= i < rest.len() implies (#[trigger] rest[i]).data_type == t
            && well_typed_column(t.kind, rest[i].values) by {
            assert(rest[i] == cols[i]);
        }
        lemma_concatenated_holds(rest, t);
        let head = concatenated(rest)->0.values;
        let c = head + last.values;
        assert(concatenated(cols) == Some(ColumnView { data_type: t, values: c }));
        assert forall|i: int| 0 <= i < c.len() implies (#[trigger] c[i] matches Some(v) ==> fits(
            t.kind,
            v,
        )) by {
            if i < head.len() {
                assert(c[i] == head[i]);
            } else {
                assert(c[i] == last.values[i - head.len()]);
            }
        }
        assert forall|i: int, k: int|
            0 <= i < cols.len() && 0 <= k < cols[i].values.len() implies c.contains(
            #[trigger] cols[i].values[k],
        ) by {
            let x = cols[i].values[k];
            if i < n {
                assert(rest[i].values[k] == x);
                let j = choose|j: int| 0 <= j < head.len() && head[j] == x;
                assert(c[j] == x);
            } else {
                assert(c[head.len() + k] == x);
            }
        }
        assert forall|x: Option<ValueView>| #[trigger] c.contains(x) implies exists|i: int|
            0 <= i < cols.len() && (#[trigger] cols[i]).values.contains(x) by {
            let j = choose|j: int| 0 <= j < c.len() && c[j] == x;
            if j < head.len() {
                assert(head[j] == x);
                assert(head.contains(x));
                let i = choose|i: int| 0 <= i < rest.len() && (#[trigger] rest[i]).values.contains(x);
                assert(cols[i].values.contains(x));
            } else {
                assert(last.values[j - head.len()] == x);
                assert(cols[n].values.contains(x));
            }
        }
    } else {
        assert forall|i: int, k: int|
            0 <= i < cols.len() && 0 <= k < cols[i].values.len() implies last.values.contains(
            #[trigger] cols[i].values[k],
        ) by {
            assert(last.values[k] == cols[i].values[k]);
        }
        assert forall|x: Option<ValueView>| #[trigger] last.values.contains(x) implies exists|
            i: int,
        |
            0 <= i < cols.len() && (#[trigger] cols[i]).values.contains(x) by {
            assert(cols[0].values.contains(x));
        }
    }
}

proof fn lemma_stats_under_names(
    names: Seq<Seq<char>>,
    batches: Seq<Seq<ColumnView>>,
    n: nat,
    idx: int,
)
    requires
        n <= names.len(),
        0 <= idx < names.len(),
        forall|i: int, j: int| 0 <= i < j < names.len() ==> names[i] != names[j],
    ensures
        ascending(stats_of(names, batches, n)),
        lookup(stats_of(names, batches, n), names[idx]) == (if idx < n {
            stats_at(batches, idx)
        } else {
            None
        }),
    decreases n,
{
    if n > 0 {
        lemma_stats_under_names(names, batches, (n - 1) as nat, idx);
        let before = stats_of(names, batches, (n - 1) as nat);
        match stats_at(batches, n - 1) {
            Some(pair) => {
                lookup_after_insert(before, names[n - 1], pair, names[idx]);
            },
            None => {},
        }
        if idx != n - 1 {
            assert(names[idx] != names[n - 1]);
        }
    }
}

/// The stats of a column stand under its name, and every value of it in every
/// batch lies between them: no row that a comparison with the bounds would leave
/// out can match. The bounds are values of the column themselves.
pub proof fn stats_bound_every_value(
    names: Seq<Seq<char>>,
    batches: Seq<Seq<ColumnView>>,
    t: DataTypeView,
    idx: int,
    b: int,
    row: int,
)
    requires
        forall|i: int, j: int| 0 <= i < j < names.len() ==> names[i] != names[j],
        0 <= idx < names.len(),
        alike(columns_at(batches, idx), t),
        0 <= b < batches.len(),
        0 <= row < batches[b][idx].values.len(),
        batches[b][idx].values[row] is Some,
    ensures
        ({
            let v = batches[b][idx].values[row]->0;
            let stats = lookup(stats_of(names, batches, names.len()), names[idx]);
            &&& stats matches Some(p) && p.0.data_type == t && p.1.data_type == t
            &&& exists|i: int|
                0 <= i < batches.len() && (#[trigger] batches[i][idx]).values.contains(
                    (stats->0).0.value,
                )
            &&& exists|i: int|
                0 <= i < batches.len() && (#[trigger] batches[i][idx]).values.contains(
                    (stats->0).1.value,
                )
            &&& (stats->0).0.value matches Some(lo) && value_le(t.kind, lo, v) && (is_nan(t.kind, lo)
                || is_nan(t.kind, v) || not_above(t.kind, lo, v))
            &&& (stats->0).1.value matches Some(hi) && value_le(t.kind, v, hi) && (is_nan(t.kind, hi)
                || is_nan(t.kind, v) || not_above(t.kind, v, hi))
        }),
{
    let cols = columns_at(batches, idx);
    let v = batches[b][idx].values[row]->0;
    lemma_stats_under_names(names, batches, names.len(), idx);
    assert(cols[b] == batches[b][idx]);
    lemma_concatenated_holds(cols, t);
    let all = concatenated(cols)->0.values;
    assert(all.contains(cols[b].values[row]));
    let k = choose|k: int| 0 <= k < all.len() && all[k] == Some(v);
    extremes_bound_the_column(t.kind, all);
    assert(all[k] is Some);
    let (lo, hi) = (least(t.kind, all)->0, greatest(t.kind, all)->0);
    if !is_nan(t.kind, lo) && !is_nan(t.kind, v) {
        values_are_ordered_by_meaning(t.kind, lo, v);
    }
    if !is_nan(t.kind, hi) && !is_nan(t.kind, v) {
        values_are_ordered_by_meaning(t.kind, v, hi);
    }
    let i = choose|i: int| 0 <= i < cols.len() && (#[trigger] cols[i]).values.contains(Some(lo));
    let j = choose|j: int| 0 <= j < cols.len() && (#[trigger] cols[j]).values.contains(Some(hi));
    assert(batches[i][idx].values.contains(Some(lo)));
    assert(batches[j][idx].values.contains(Some(hi)));
}

/// Columns are joined just where there are any and all are of one type; the
/// joined column has the type and the values of all of them, in their order.
pub proof fn columns_are_joined_in_order(cols: Seq<ColumnView>)
    ensures
        concatenated(cols) is Some <==> cols.len() > 0 && forall|i: int|
            0 <= i < cols.len() ==> (#[trigger] cols[i]).data_type == cols[0].data_type,
        concatenated(cols) matches Some(c) ==> c.data_type == cols[0].data_type && c.values
            == cols.map_values(|c: ColumnView| c.values).flatten_alt(),
    decreases cols.len(),
{
    let f = |c: ColumnView| c.values;
    let parts = cols.map_values(f);
    if cols.len() == 1 {
        assert(parts.drop_last() =~= Seq::empty());
        assert(parts.drop_last().flatten_alt() =~= Seq::empty());
        assert(parts.flatten_alt() =~= cols[0].values);
    } else if cols.len() > 1 {
        let rest = cols.drop_last();
        columns_are_joined_in_order(rest);
        assert(parts.drop_last() =~= rest.map_values(f));
        assert(rest[0] == cols[0]);
        assert(cols[cols.len() - 1] == cols.last());
        assert forall|i: int| 0 <= i < rest.len() implies #[trigger] rest[i] == cols[i] by {}
        if concatenated(rest) is Some && cols.last().data_type == cols[0].data_type {
            assert forall|i: int| 0 <= i < cols.len() implies (#[trigger] cols[i]).data_type
                == cols[0].data_type by {
                if i < rest.len() {
                    assert(rest[i].data_type == rest[0].data_type);
                }
            }
        }
        if forall|i: int|
            0 <= i < cols.len() ==> (#[trigger] cols[i]).data_type == cols[0].data_type {
            assert forall|i: int| 0 <= i < rest.len() implies (#[trigger] rest[i]).data_type
                == rest[0].data_type by {
                assert(cols[i].data_type == cols[0].data_type);
            }
        }
    }
}

/// A column has no stats where its type has no order, where its types differ
/// between batches, and where none of its rows has a value.
pub proof fn columns_without_bounds_are_left_out(batches: Seq<Seq<ColumnView>>, idx: int)
    ensures
        ({
            let cols = columns_at(batches, idx);
            stats_at(batches, idx) is None <==> {
                ||| cols.len() == 0
                ||| !has_order(cols[0].data_type.kind)
                ||| exists|i: int|
                    0 <= i < cols.len() && (#[trigger] cols[i]).data_type != cols[0].data_type
                ||| forall|k: int|
                    0 <= k < concatenated(cols)->0.values.len() ==> (#[trigger] concatenated(
                        cols,
                    )->0.values[k]) is None
            }
        }),
{
    let cols = columns_at(batches, idx);
    columns_are_joined_in_order(cols);
    if concatenated(cols) is Some {
        lemma_least_is_there(cols[0].data_type.kind, concatenated(cols)->0.values);
    } else if cols.len() > 0 {
        let i = choose|i: int|
            0 <= i < cols.len() && (#[trigger] cols[i]).data_type != cols[0].data_type;
        assert(cols[i].data_type != cols[0].data_type);
    }
}

proof fn lemma_least_is_there(kind: TypeKind, s: Seq<Option<ValueView>>)
    ensures
        least(kind, s) is None <==> forall|k: int| 0 <= k < s.len() ==> (#[trigger] s[k]) is None,
    decreases s.len(),
{
    if s.len() > 0 {
        let rest = s.drop_last();
        lemma_least_is_there(kind, rest);
        assert(s[s.len() - 1] == s.last());
        assert forall|k: int| 0 <= k < rest.len() implies #[trigger] rest[k] == s[k] by {}
        if least(kind, rest) is Some {
            let k = choose|k: int| 0 <= k < rest.len() && (#[trigger] rest[k]) is Some;
            assert(s[k] is Some);
        } else {
            assert forall|k: int| 0 <= k < s.len() - 1 implies (#[trigger] s[k]) is None by {
                assert(rest[k] is None);
            }
        }
    }
}

} // verus!
