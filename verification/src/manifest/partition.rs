//! Which partition a superfile belongs to.

use vstd::prelude::*;

use crate::bytes::{le_bytes, le_bytes_round_trip, le_value, le_value_round_trip,
    lemma_pow256_widths, push_le, read_le};
use crate::column_map::lookup;
use crate::error::CommitError;
use crate::ids::{id_text, write_id};
use crate::manifest::entry::{SuperfileEntry, SuperfileEntryView};
use crate::lex::{bytes_copy, bytes_eq};
use crate::manifest::ipc::{ipc_encode_length1, scalar_stream};
use crate::manifest::list::{byte_strings, PartitionStrategy, PartitionStrategyView};
use crate::manifest::part::{from_long, long_docs};
use crate::scalar::{
    fits, has_order, is_nan, not_above, value_at_most, value_le, value_le_is_transitive,
    values_are_ordered_by_meaning, Scalar, ScalarValue, ScalarView, TypeKind, ValueView,
};
use crate::text::{dec_text, int_text, push_dec, push_int, quoted, quoted_text};

verus! {

/// A partition.
#[derive(Clone, Copy, PartialEq, Eq, Structural, Hash, Debug)]
pub enum PartitionKey {
    /// The bucket of a time column, as 64 bits.
    TimeRange(u64),
    /// The bucket of a hash.
    Hash(u32),
    /// The interval between boundaries: how many of them lie at or below the
    /// values.
    ColumnRange(u16),
}

// ---------------------------------------------------------------- encoding

/// A partition as bytes.
pub open spec fn key_bytes(key: PartitionKey) -> Seq<u8> {
    match key {
        PartitionKey::TimeRange(b) => le_bytes(b as nat, 8),
        PartitionKey::Hash(b) => le_bytes(b as nat, 4),
        PartitionKey::ColumnRange(b) => le_bytes(b as nat, 2),
    }
}

/// A partition as bytes.
pub fn encode_partition_key(key: &PartitionKey) -> (r: Vec<u8>)
    ensures
        r@ == key_bytes(*key),
{
    let mut out: Vec<u8> = Vec::new();
    match *key {
        PartitionKey::TimeRange(b) => push_le(&mut out, b as u128, 8),
        PartitionKey::Hash(b) => push_le(&mut out, b as u128, 4),
        PartitionKey::ColumnRange(b) => push_le(&mut out, b as u128, 2),
    }
    proof {
        assert(out@ =~= key_bytes(*key));
    }
    out
}

/// The partition of bytes under a strategy, or what is wrong with them. Where
/// there is but one partition, no bytes stand for it too.
pub open spec fn key_parsed(bytes: Seq<u8>, strategy: PartitionStrategyView) -> Result<
    PartitionKey,
    Seq<char>,
> {
    match strategy {
        PartitionStrategyView::TimeRange { .. } => if bytes.len() == 8 {
            Ok(PartitionKey::TimeRange(le_value(bytes) as u64))
        } else {
            Err("TimeRange partition_key must be 8 bytes; got "@ + dec_text(bytes.len()))
        },
        PartitionStrategyView::Hash { n_buckets, .. } => if bytes.len() == 4 {
            Ok(PartitionKey::Hash(le_value(bytes) as u32))
        } else if bytes.len() == 0 && n_buckets <= 1 {
            Ok(PartitionKey::Hash(0))
        } else {
            Err("Hash partition_key must be 4 bytes; got "@ + dec_text(bytes.len()))
        },
        PartitionStrategyView::ColumnRange { .. } => if bytes.len() == 2 {
            Ok(PartitionKey::ColumnRange(le_value(bytes) as u16))
        } else {
            Err("ColumnRange partition_key must be 2 bytes; got "@ + dec_text(bytes.len()))
        },
    }
}

fn wrong_length(text: &str, n: usize) -> (r: CommitError)
    ensures
        r matches CommitError::PointerParse(s) && s@ == text@ + dec_text(n as nat),
{
    let mut s = text.to_string();
    push_dec(&mut s, n as u128);
    CommitError::PointerParse(s)
}

/// The partition of bytes under a strategy.
pub fn decode_partition_key(bytes: &[u8], strategy: &PartitionStrategy) -> (r: Result<
    PartitionKey,
    CommitError,
>)
    ensures
        match r {
            Ok(key) => key_parsed(bytes@, strategy@) == Ok::<PartitionKey, Seq<char>>(key),
            Err(e) => e matches CommitError::PointerParse(s) && key_parsed(bytes@, strategy@)
                == Err::<PartitionKey, Seq<char>>(s@),
        },
{
    let n: usize = bytes.len();
    proof {
        le_value_round_trip(bytes@);
        lemma_pow256_widths();
    }
    match strategy {
        PartitionStrategy::TimeRange { .. } => {
            if n != 8 {
                return Err(wrong_length("TimeRange partition_key must be 8 bytes; got ", n));
            }
            Ok(PartitionKey::TimeRange(read_le(bytes) as u64))
        },
        PartitionStrategy::Hash { n_buckets, .. } => {
            if n == 0 && *n_buckets <= 1 {
                return Ok(PartitionKey::Hash(0));
            }
            if n != 4 {
                return Err(wrong_length("Hash partition_key must be 4 bytes; got ", n));
            }
            Ok(PartitionKey::Hash(read_le(bytes) as u32))
        },
        PartitionStrategy::ColumnRange { .. } => {
            if n != 2 {
                return Err(wrong_length("ColumnRange partition_key must be 2 bytes; got ", n));
            }
            Ok(PartitionKey::ColumnRange(read_le(bytes) as u16))
        },
    }
}

/// Whether there is more than one partition: a hash of one bucket makes none.
pub open spec fn is_partitioned(strategy: PartitionStrategyView) -> bool {
    !(strategy matches PartitionStrategyView::Hash { n_buckets, .. } && n_buckets <= 1)
}

/// The partition as superfiles and lists carry it: nothing where there is but
/// one.
pub open spec fn stored_key(strategy: PartitionStrategyView, key: PartitionKey) -> Seq<u8> {
    if is_partitioned(strategy) {
        key_bytes(key)
    } else {
        Seq::empty()
    }
}

/// The partition as superfiles and lists carry it.
pub fn stored_partition_key(strategy: &PartitionStrategy, key: &PartitionKey) -> (r: Vec<u8>)
    ensures
        r@ == stored_key(strategy@, *key),
{
    match strategy {
        PartitionStrategy::Hash { n_buckets, .. } => {
            if *n_buckets <= 1 {
                return Vec::new();
            }
        },
        _ => {},
    }
    encode_partition_key(key)
}

/// Bytes of a partition as they would be stored now: where there is but one
/// partition, its number may stand in lists as well.
pub open spec fn stored_form(strategy: PartitionStrategyView, bytes: Seq<u8>) -> Seq<u8> {
    if !is_partitioned(strategy) && key_parsed(bytes, strategy) == Ok::<PartitionKey, Seq<char>>(
        PartitionKey::Hash(0),
    ) {
        Seq::empty()
    } else {
        bytes
    }
}

/// Bytes of a partition as they would be stored now.
pub fn stored_key_form(strategy: &PartitionStrategy, bytes: &[u8]) -> (r: Vec<u8>)
    ensures
        r@ == stored_form(strategy@, bytes@),
{
    match strategy {
        PartitionStrategy::Hash { n_buckets, .. } => {
            if *n_buckets <= 1 {
                match decode_partition_key(bytes, strategy) {
                    Ok(PartitionKey::Hash(0)) => return Vec::new(),
                    _ => {},
                }
            }
        },
        _ => {},
    }
    bytes_copy(bytes)
}

/// Two keys that can be read have one stored form just where they are of one
/// partition.
pub proof fn stored_forms_tell_partitions_apart(
    strategy: PartitionStrategyView,
    a: Seq<u8>,
    b: Seq<u8>,
)
    requires
        key_parsed(a, strategy) is Ok,
    ensures
        stored_form(strategy, a) == stored_form(strategy, b) <==> key_parsed(a, strategy)
            == key_parsed(b, strategy),
{
    lemma_pow256_widths();
    le_value_round_trip(a);
    le_value_round_trip(b);
}

/// Keys of the kind that a strategy gives.
pub open spec fn key_fits(key: PartitionKey, strategy: PartitionStrategyView) -> bool {
    match strategy {
        PartitionStrategyView::TimeRange { .. } => key is TimeRange,
        PartitionStrategyView::Hash { .. } => key is Hash,
        PartitionStrategyView::ColumnRange { .. } => key is ColumnRange,
    }
}

/// The bytes of a partition read back as the partition.
pub proof fn partition_key_round_trip(key: PartitionKey, strategy: PartitionStrategyView)
    requires
        key_fits(key, strategy),
    ensures
        key_parsed(key_bytes(key), strategy) == Ok::<PartitionKey, Seq<char>>(key),
{
    lemma_pow256_widths();
    match key {
        PartitionKey::TimeRange(b) => le_bytes_round_trip(b as nat, 8),
        PartitionKey::Hash(b) => le_bytes_round_trip(b as nat, 4),
        PartitionKey::ColumnRange(b) => le_bytes_round_trip(b as nat, 2),
    }
}

// ---------------------------------------------------------------- assignment

/// The start of every message on a superfile and a column.
pub open spec fn about(seg: SuperfileEntryView, column: Seq<char>) -> Seq<char> {
    "TimeRange strategy: segment "@ + id_text(seg.uri.0) + " column "@ + quoted(column)
}

/// The 64-bit integer of a bound of a column, or what is wrong with it.
pub open spec fn bound_value(bound: ScalarView, column: Seq<char>, seg: SuperfileEntryView) -> Result<
    i64,
    Seq<char>,
> {
    match bound.value {
        None => Err(about(seg, column) + " stats array is empty or null at index 0"@),
        Some(v) => match bound.data_type.kind {
            TypeKind::Int64 | TypeKind::Timestamp => match v {
                ValueView::Int(x) => if i64::MIN <= x <= i64::MAX {
                    Ok(x as i64)
                } else {
                    Err(about(seg, column) + " downcast failed"@)
                },
                _ => Err(about(seg, column) + " downcast failed"@),
            },
            _ => Err(
                about(seg, column) + " has unsupported type "@ + bound.data_type.name
                    + "; expected Int64 or Timestamp*"@,
            ),
        },
    }
}

/// The bounds of a column as 64-bit integers, or what is wrong with them.
pub open spec fn column_bounds(seg: SuperfileEntryView, column: Seq<char>) -> Result<
    (i64, i64),
    Seq<char>,
> {
    match lookup(seg.scalar_stats, column) {
        None => Err(
            "TimeRange strategy: segment "@ + id_text(seg.uri.0) + " has no scalar_stats for column "@
                + quoted(column),
        ),
        Some(bounds) => match bound_value(bounds.0, column, seg) {
            Err(m) => Err(m),
            Ok(min) => match bound_value(bounds.1, column, seg) {
                Err(m) => Err(m),
                Ok(max) => Ok((min, max)),
            },
        },
    }
}

/// The bucket of a time.
pub open spec fn bucket(x: int, granularity: int) -> int {
    x / granularity
}

/// The message on bounds in two buckets.
pub open spec fn spans_text(
    seg: SuperfileEntryView,
    column: Seq<char>,
    min: int,
    max: int,
    min_bucket: int,
    max_bucket: int,
) -> Seq<char> {
    "segment "@ + id_text(seg.uri.0) + " column "@ + quoted(column) + " ["@ + int_text(min) + ", "@
        + int_text(max) + "] spans buckets "@ + int_text(min_bucket) + "..="@ + int_text(max_bucket)
        + "; reduce commit_threshold_size_mb or flush at granularity boundaries"@
}

/// The value that a boundary's bytes hold, under the name of its column.
#[derive(Debug)]
pub struct Boundary {
    pub name: String,
    pub value: Scalar,
}

pub struct BoundaryView {
    pub name: Seq<char>,
    pub value: ScalarView,
}

impl View for Boundary {
    type V = BoundaryView;

    open spec fn view(&self) -> BoundaryView {
        BoundaryView { name: self.name@, value: self.value@ }
    }
}

/// The boundaries that a list holds.
pub open spec fn boundary_views(s: Seq<Boundary>) -> Seq<BoundaryView> {
    Seq::new(s.len(), |i: int| s[i]@)
}

/// That values are those of encoded boundaries: each has the bytes as its
/// stream.
pub open spec fn are_values_of(values: Seq<BoundaryView>, boundaries: Seq<Seq<u8>>) -> bool {
    &&& values.len() == boundaries.len()
    &&& forall|i: int|
        0 <= i < values.len() ==> scalar_stream((#[trigger] values[i]).name, values[i].value)
            == Some(boundaries[i])
}

/// How many boundaries lie at or below a value. Where they ascend it is the
/// index of the interval that the value lies in, each one with its lower
/// boundary and without its upper one.
pub open spec fn interval_of(values: Seq<BoundaryView>, kind: TypeKind, x: ValueView) -> nat
    decreases values.len(),
{
    if values.len() == 0 {
        0
    } else {
        interval_of(values.drop_last(), kind, x) + if value_le(
            kind,
            values.last().value.value->0,
            x,
        ) {
            1nat
        } else {
            0nat
        }
    }
}

/// That boundaries are of a kind.
pub open spec fn all_of_kind(values: Seq<BoundaryView>, kind: TypeKind) -> bool {
    forall|i: int|
        0 <= i < values.len() ==> (#[trigger] values[i]).value.data_type.kind == kind
}

/// The start of every message on a superfile, a column and its boundaries.
pub open spec fn range_about(seg: SuperfileEntryView, column: Seq<char>) -> Seq<char> {
    "ColumnRange strategy: segment "@ + id_text(seg.uri.0) + " column "@ + quoted(column)
}

/// The interval of a superfile between boundaries of these values, or why it has
/// none.
pub open spec fn range_of(
    seg: SuperfileEntryView,
    column: Seq<char>,
    values: Seq<BoundaryView>,
) -> Result<PartitionKey, Seq<char>> {
    match lookup(seg.scalar_stats, column) {
        None => Err(range_about(seg, column) + " has no scalar_stats"@),
        Some(b) => match (b.0.value, b.1.value) {
            (Some(min), Some(max)) => {
                let kind = b.0.data_type.kind;
                let lo = interval_of(values, kind, min);
                let hi = interval_of(values, kind, max);
                if b.1.data_type.kind != kind || !all_of_kind(values, kind) {
                    Err(range_about(seg, column) + " is of another type than its boundaries"@)
                } else if lo != hi {
                    Err(
                        range_about(seg, column) + " spans intervals "@ + dec_text(lo) + "..="@
                            + dec_text(hi),
                    )
                } else if lo > u16::MAX {
                    Err(range_about(seg, column) + " lies in interval "@ + dec_text(lo))
                } else {
                    Ok(PartitionKey::ColumnRange(lo as u16))
                }
            },
            _ => Err(range_about(seg, column) + " stats array is empty or null at index 0"@),
        },
    }
}

/// The partition of a superfile under a strategy, or why it has none. `values`
/// are those of the strategy's boundaries.
pub open spec fn partition_of(
    seg: SuperfileEntryView,
    strategy: PartitionStrategyView,
    values: Seq<BoundaryView>,
) -> Result<PartitionKey, Seq<char>> {
    match strategy {
        PartitionStrategyView::TimeRange { column, granularity_secs } => if granularity_secs <= 0 {
            Err("TimeRange granularity_secs must be > 0; got "@ + int_text(granularity_secs as int))
        } else {
            match column_bounds(seg, column) {
                Err(m) => Err(m),
                Ok(b) => {
                    let lo = bucket(b.0 as int, granularity_secs as int);
                    let hi = bucket(b.1 as int, granularity_secs as int);
                    if lo == hi {
                        Ok(PartitionKey::TimeRange(long_docs(lo as i64)))
                    } else {
                        Err(spans_text(seg, column, b.0 as int, b.1 as int, lo, hi))
                    }
                },
            }
        },
        PartitionStrategyView::Hash { n_buckets, .. } => if n_buckets <= 1 {
            Ok(PartitionKey::Hash(0))
        } else {
            match seg.partition_hint {
                None => Err(
                    "Hash{n_buckets:"@ + dec_text(n_buckets as nat)
                        + "} strategy requires pre-sharded superfiles; SuperfileEntry.partition_hint must be Some(bucket) (segment "@
                        + id_text(seg.uri.0) + ")"@,
                ),
                Some(b) => if b >= n_buckets {
                    Err(
                        "Hash{n_buckets:"@ + dec_text(n_buckets as nat) + "} got partition_hint="@
                            + dec_text(b as nat) + " (out of range)"@,
                    )
                } else {
                    Ok(PartitionKey::Hash(b))
                },
            }
        },
        PartitionStrategyView::ColumnRange { column, boundaries } => if are_values_of(
            values,
            boundaries,
        ) {
            range_of(seg, column, values)
        } else {
            Err(range_about(seg, column) + " has boundaries of other values"@)
        },
    }
}

fn spans(detail: String) -> (r: CommitError)
    ensures
        r matches CommitError::SuperfileSpansPartition { detail: d } && d@ == detail@,
{
    CommitError::SuperfileSpansPartition { detail }
}

/// The quotient rounded down.
fn floor_div(x: i64, g: i64) -> (r: i64)
    requires
        g > 0,
    ensures
        r == bucket(x as int, g as int),
{
    if x >= 0 {
        let q = x / g;
        proof {
            assert(0 <= x as int / g as int <= x) by (nonlinear_arith)
                requires
                    x >= 0,
                    g > 0,
            ;
        }
        q
    } else {
        let y: i64 = -1 - x;
        let q = y / g;
        proof {
            let (xi, gi, yi) = (x as int, g as int, y as int);
            assert(0 <= yi / gi <= yi) by (nonlinear_arith)
                requires
                    yi >= 0,
                    gi > 0,
            ;
            assert(xi / gi == -1 - yi / gi) by (nonlinear_arith)
                requires
                    yi == -1 - xi,
                    gi > 0,
            {
                let q = yi / gi;
                let r = yi % gi;
                assert(yi == gi * q + r && 0 <= r < gi);
                assert(xi == gi * (-1 - q) + (gi - 1 - r));
                vstd::arithmetic::div_mod::lemma_fundamental_div_mod_converse(
                    xi,
                    gi,
                    -1 - q,
                    gi - 1 - r,
                );
            }
        }
        -1 - q
    }
}

fn about_text(seg: &SuperfileEntry, column: &str) -> (r: String)
    ensures
        r@ == about(seg@, column@),
{
    let mut s = "TimeRange strategy: segment ".to_string();
    s.append(write_id(seg.uri.0).as_str());
    s.append(" column ");
    s.append(quoted_text(column).as_str());
    s
}

fn downcast_i64(bound: &Scalar, column: &str, seg: &SuperfileEntry) -> (r: Result<
    i64,
    CommitError,
>)
    ensures
        match r {
            Ok(x) => bound_value(bound@, column@, seg@) == Ok::<i64, Seq<char>>(x),
            Err(e) => e matches CommitError::SuperfileSpansPartition { detail } && bound_value(
                bound@,
                column@,
                seg@,
            ) == Err::<i64, Seq<char>>(detail@),
        },
{
    match &bound.value {
        None => {
            let mut s = about_text(seg, column);
            s.append(" stats array is empty or null at index 0");
            Err(spans(s))
        },
        Some(v) => match bound.data_type.kind {
            TypeKind::Int64 | TypeKind::Timestamp => {
                if let ScalarValue::Int(x) = v {
                    if -0x8000_0000_0000_0000 <= *x && *x <= 0x7fff_ffff_ffff_ffff {
                        return Ok(*x as i64);
                    }
                }
                let mut s = about_text(seg, column);
                s.append(" downcast failed");
                Err(spans(s))
            },
            _ => {
                let mut s = about_text(seg, column);
                s.append(" has unsupported type ");
                s.append(bound.data_type.name.as_str());
                s.append("; expected Int64 or Timestamp*");
                Err(spans(s))
            },
        },
    }
}

fn scalar_i64_minmax(seg: &SuperfileEntry, column: &str) -> (r: Result<(i64, i64), CommitError>)
    ensures
        match r {
            Ok(b) => column_bounds(seg@, column@) == Ok::<(i64, i64), Seq<char>>(b),
            Err(e) => e matches CommitError::SuperfileSpansPartition { detail } && column_bounds(
                seg@,
                column@,
            ) == Err::<(i64, i64), Seq<char>>(detail@),
        },
{
    match seg.scalar_stats.cols.get(column) {
        None => {
            let mut s = "TimeRange strategy: segment ".to_string();
            s.append(write_id(seg.uri.0).as_str());
            s.append(" has no scalar_stats for column ");
            s.append(quoted_text(column).as_str());
            Err(spans(s))
        },
        Some(bounds) => {
            let min = match downcast_i64(&bounds.0, column, seg) {
                Ok(x) => x,
                Err(e) => return Err(e),
            };
            let max = match downcast_i64(&bounds.1, column, seg) {
                Ok(x) => x,
                Err(e) => return Err(e),
            };
            Ok((min, max))
        },
    }
}

fn assign_time(seg: &SuperfileEntry, column: &str, granularity_secs: i64) -> (r: Result<
    PartitionKey,
    CommitError,
>)
    ensures
        match r {
            Ok(key) => partition_of(
                seg@,
                PartitionStrategyView::TimeRange { column: column@, granularity_secs },
                Seq::empty(),
            ) == Ok::<PartitionKey, Seq<char>>(key),
            Err(e) => e matches CommitError::SuperfileSpansPartition { detail } && partition_of(
                seg@,
                PartitionStrategyView::TimeRange { column: column@, granularity_secs },
                Seq::empty(),
            ) == Err::<PartitionKey, Seq<char>>(detail@),
        },
{
    if granularity_secs <= 0 {
        let mut s = "TimeRange granularity_secs must be > 0; got ".to_string();
        push_int(&mut s, granularity_secs as i128);
        return Err(spans(s));
    }
    let (min, max) = match scalar_i64_minmax(seg, column) {
        Ok(b) => b,
        Err(e) => return Err(e),
    };
    let min_bucket = floor_div(min, granularity_secs);
    let max_bucket = floor_div(max, granularity_secs);
    if min_bucket != max_bucket {
        let mut s = "segment ".to_string();
        s.append(write_id(seg.uri.0).as_str());
        s.append(" column ");
        s.append(quoted_text(column).as_str());
        s.append(" [");
        push_int(&mut s, min as i128);
        s.append(", ");
        push_int(&mut s, max as i128);
        s.append("] spans buckets ");
        push_int(&mut s, min_bucket as i128);
        s.append("..=");
        push_int(&mut s, max_bucket as i128);
        s.append("; reduce commit_threshold_size_mb or flush at granularity boundaries");
        return Err(spans(s));
    }
    Ok(PartitionKey::TimeRange(from_long(min_bucket)))
}

fn range_about_text(seg: &SuperfileEntry, column: &str) -> (r: String)
    ensures
        r@ == range_about(seg@, column@),
{
    let mut s = "ColumnRange strategy: segment ".to_string();
    s.append(write_id(seg.uri.0).as_str());
    s.append(" column ");
    s.append(quoted_text(column).as_str());
    s
}

fn holds_values(values: &[Boundary], boundaries: &Vec<Vec<u8>>) -> (r: bool)
    ensures
        r == are_values_of(boundary_views(values@), byte_strings(boundaries@)),
{
    let ghost v = boundary_views(values@);
    let ghost b = byte_strings(boundaries@);
    if values.len() != boundaries.len() {
        return false;
    }
    let mut i: usize = 0;
    while i < values.len()
        invariant
            i <= values@.len(),
            values@.len() == boundaries@.len(),
            v == boundary_views(values@),
            b == byte_strings(boundaries@),
            forall|k: int|
                0 <= k < i ==> scalar_stream((#[trigger] v[k]).name, v[k].value) == Some(b[k]),
        decreases values@.len() - i,
    {
        assert(v[i as int] == values@[i as int]@);
        let like = match ipc_encode_length1(values[i].name.as_str(), &values[i].value) {
            Some(bytes) => bytes_eq(bytes.as_slice(), boundaries[i].as_slice()),
            None => false,
        };
        if !like {
            assert(scalar_stream(v[i as int].name, v[i as int].value) != Some(b[i as int]));
            return false;
        }
        i = i + 1;
    }
    true
}

fn are_of_kind(values: &[Boundary], kind: TypeKind) -> (r: bool)
    ensures
        r == all_of_kind(boundary_views(values@), kind),
{
    let ghost v = boundary_views(values@);
    let mut i: usize = 0;
    while i < values.len()
        invariant
            i <= values@.len(),
            v == boundary_views(values@),
            forall|k: int| 0 <= k < i ==> (#[trigger] v[k]).value.data_type.kind == kind,
        decreases values@.len() - i,
    {
        assert(v[i as int] == values@[i as int]@);
        if values[i].value.data_type.kind != kind {
            assert(v[i as int].value.data_type.kind != kind);
            return false;
        }
        i = i + 1;
    }
    true
}

/// That every boundary has a value.
spec fn all_there(values: Seq<BoundaryView>) -> bool {
    forall|i: int| 0 <= i < values.len() ==> (#[trigger] values[i]).value.value is Some
}

fn interval_at(values: &[Boundary], kind: TypeKind, x: &ScalarValue) -> (r: usize)
    requires
        all_there(boundary_views(values@)),
    ensures
        r == interval_of(boundary_views(values@), kind, x@),
{
    let ghost v = boundary_views(values@);
    let mut n: usize = 0;
    let mut i: usize = 0;
    assert(v.take(0) =~= Seq::empty());
    while i < values.len()
        invariant
            i <= values@.len(),
            n <= i,
            v == boundary_views(values@),
            all_there(v),
            n == interval_of(v.take(i as int), kind, x@),
        decreases values@.len() - i,
    {
        proof {
            assert(v.take(i as int + 1).drop_last() =~= v.take(i as int));
            assert(v.take(i as int + 1).last() == v[i as int]);
            assert(v[i as int] == values@[i as int]@);
        }
        if let Some(b) = &values[i].value.value {
            if value_at_most(kind, b, x) {
                n = n + 1;
            }
        }
        i = i + 1;
    }
    assert(v.take(i as int) =~= v);
    n
}

fn assign_range(seg: &SuperfileEntry, column: &str, values: &[Boundary]) -> (r: Result<
    PartitionKey,
    CommitError,
>)
    requires
        all_there(boundary_views(values@)),
    ensures
        match r {
            Ok(key) => range_of(seg@, column@, boundary_views(values@)) == Ok::<
                PartitionKey,
                Seq<char>,
            >(key),
            Err(e) => e matches CommitError::SuperfileSpansPartition { detail } && range_of(
                seg@,
                column@,
                boundary_views(values@),
            ) == Err::<PartitionKey, Seq<char>>(detail@),
        },
{
    let mut s = range_about_text(seg, column);
    match seg.scalar_stats.cols.get(column) {
        None => {
            s.append(" has no scalar_stats");
            Err(spans(s))
        },
        Some(bounds) => match (&bounds.0.value, &bounds.1.value) {
            (Some(min), Some(max)) => {
                let kind = bounds.0.data_type.kind;
                if bounds.1.data_type.kind != kind || !are_of_kind(values, kind) {
                    s.append(" is of another type than its boundaries");
                    return Err(spans(s));
                }
                let lo: usize = interval_at(values, kind, min);
                let hi: usize = interval_at(values, kind, max);
                if lo != hi {
                    s.append(" spans intervals ");
                    push_dec(&mut s, lo as u128);
                    s.append("..=");
                    push_dec(&mut s, hi as u128);
                    return Err(spans(s));
                }
                if lo > 0xffff {
                    s.append(" lies in interval ");
                    push_dec(&mut s, lo as u128);
                    return Err(spans(s));
                }
                Ok(PartitionKey::ColumnRange(lo as u16))
            },
            _ => {
                s.append(" stats array is empty or null at index 0");
                Err(spans(s))
            },
        },
    }
}

/// The partition that `seg` belongs to under `strategy`.
///
/// Under a time range both bounds of the column must fall into one bucket. Under
/// a hash of more than one bucket the superfile must say which bucket its rows
/// were sharded into. Between boundaries both bounds of the column must fall
/// into one interval. Arrow's reader panics on bytes that are no stream, so the
/// values of the boundaries come with them, and their streams are held against
/// the bytes.
pub fn assign_partition(
    seg: &SuperfileEntry,
    strategy: &PartitionStrategy,
    values: &[Boundary],
) -> (r: Result<PartitionKey, CommitError>)
    ensures
        match r {
            Ok(key) => partition_of(seg@, strategy@, boundary_views(values@)) == Ok::<
                PartitionKey,
                Seq<char>,
            >(key),
            Err(e) => e matches CommitError::SuperfileSpansPartition { detail } && partition_of(
                seg@,
                strategy@,
                boundary_views(values@),
            ) == Err::<PartitionKey, Seq<char>>(detail@),
        },
{
    match strategy {
        PartitionStrategy::TimeRange { column, granularity_secs } => {
            assign_time(seg, column.as_str(), *granularity_secs)
        },
        PartitionStrategy::Hash { n_buckets, .. } => {
            if *n_buckets <= 1 {
                return Ok(PartitionKey::Hash(0));
            }
            let mut s = "Hash{n_buckets:".to_string();
            push_dec(&mut s, *n_buckets as u128);
            match seg.partition_hint {
                None => {
                    s.append(
                        "} strategy requires pre-sharded superfiles; SuperfileEntry.partition_hint must be Some(bucket) (segment ",
                    );
                    s.append(write_id(seg.uri.0).as_str());
                    s.append(")");
                    Err(spans(s))
                },
                Some(b) => {
                    if b >= *n_buckets {
                        s.append("} got partition_hint=");
                        push_dec(&mut s, b as u128);
                        s.append(" (out of range)");
                        return Err(spans(s));
                    }
                    Ok(PartitionKey::Hash(b))
                },
            }
        },
        PartitionStrategy::ColumnRange { column, boundaries } => {
            if !holds_values(values, boundaries) {
                let mut s = range_about_text(seg, column.as_str());
                s.append(" has boundaries of other values");
                return Err(spans(s));
            }
            assert forall|i: int| 0 <= i < values@.len() implies (
            #[trigger] boundary_views(values@)[i]).value.value is Some by {
                assert(scalar_stream(
                    boundary_views(values@)[i].name,
                    boundary_views(values@)[i].value,
                ) is Some);
            }
            assign_range(seg, column.as_str(), values)
        },
    }
}

/// A superfile is assigned a key of the kind of its strategy.
pub proof fn assigned_key_fits(
    seg: SuperfileEntryView,
    strategy: PartitionStrategyView,
    values: Seq<BoundaryView>,
)
    requires
        partition_of(seg, strategy, values) is Ok,
    ensures
        key_fits(partition_of(seg, strategy, values)->Ok_0, strategy),
{
}

/// What superfiles and lists carry reads back as the partition that was assigned.
pub proof fn stored_key_round_trip(
    seg: SuperfileEntryView,
    strategy: PartitionStrategyView,
    values: Seq<BoundaryView>,
)
    requires
        partition_of(seg, strategy, values) is Ok,
    ensures
        key_parsed(stored_key(strategy, partition_of(seg, strategy, values)->Ok_0), strategy)
            == Ok::<PartitionKey, Seq<char>>(partition_of(seg, strategy, values)->Ok_0),
{
    partition_key_round_trip(partition_of(seg, strategy, values)->Ok_0, strategy);
}

/// Under a time range every value between the bounds of an assigned superfile
/// lies in its bucket.
pub proof fn assigned_bucket_holds_all(
    seg: SuperfileEntryView,
    column: Seq<char>,
    granularity_secs: i64,
    values: Seq<BoundaryView>,
    x: int,
)
    requires
        partition_of(
            seg,
            PartitionStrategyView::TimeRange { column, granularity_secs },
            values,
        ) is Ok,
        column_bounds(seg, column)->Ok_0.0 <= x <= column_bounds(seg, column)->Ok_0.1,
    ensures
        granularity_secs > 0,
        column_bounds(seg, column) is Ok,
        bucket(x, granularity_secs as int) == bucket(
            column_bounds(seg, column)->Ok_0.0 as int,
            granularity_secs as int,
        ),
{
    let g = granularity_secs as int;
    let (lo, hi) = (
        column_bounds(seg, column)->Ok_0.0 as int,
        column_bounds(seg, column)->Ok_0.1 as int,
    );
    vstd::arithmetic::div_mod::lemma_div_is_ordered(lo, x, g);
    vstd::arithmetic::div_mod::lemma_div_is_ordered(x, hi, g);
}

/// That boundaries ascend.
pub open spec fn boundaries_ascend(values: Seq<BoundaryView>, kind: TypeKind) -> bool {
    forall|i: int, j: int|
        0 <= i < j < values.len() ==> value_le(
            kind,
            (#[trigger] values[i]).value.value->0,
            (#[trigger] values[j]).value.value->0,
        )
}

/// Where boundaries ascend, a value lies at or above the boundaries before its
/// interval, and below those after it.
pub proof fn interval_lies_between(values: Seq<BoundaryView>, kind: TypeKind, x: ValueView, j: int)
    requires
        boundaries_ascend(values, kind),
        0 <= j < values.len(),
    ensures
        interval_of(values, kind, x) <= values.len(),
        j < interval_of(values, kind, x) <==> value_le(kind, values[j].value.value->0, x),
    decreases values.len(),
{
    let rest = values.drop_last();
    let last = values[values.len() - 1];
    assert forall|a: int, b: int| 0 <= a < b < rest.len() implies value_le(
        kind,
        (#[trigger] rest[a]).value.value->0,
        (#[trigger] rest[b]).value.value->0,
    ) by {
        assert(rest[a] == values[a] && rest[b] == values[b]);
    }
    lemma_interval_within(rest, kind, x);
    if value_le(kind, last.value.value->0, x) {
        lemma_all_below(rest, kind, x, last);
        if j < rest.len() {
            value_le_is_transitive(kind, values[j].value.value->0, last.value.value->0, x);
        }
    } else if j < rest.len() {
        interval_lies_between(rest, kind, x, j);
    }
}

proof fn lemma_interval_within(values: Seq<BoundaryView>, kind: TypeKind, x: ValueView)
    ensures
        interval_of(values, kind, x) <= values.len(),
    decreases values.len(),
{
    if values.len() > 0 {
        lemma_interval_within(values.drop_last(), kind, x);
    }
}

proof fn lemma_all_below(
    values: Seq<BoundaryView>,
    kind: TypeKind,
    x: ValueView,
    last: BoundaryView,
)
    requires
        value_le(kind, last.value.value->0, x),
        forall|i: int|
            0 <= i < values.len() ==> value_le(
                kind,
                (#[trigger] values[i]).value.value->0,
                last.value.value->0,
            ),
    ensures
        interval_of(values, kind, x) == values.len(),
    decreases values.len(),
{
    if values.len() > 0 {
        let n = values.len() - 1;
        assert(values.last() == values[n]);
        value_le_is_transitive(kind, values[n].value.value->0, last.value.value->0, x);
        assert forall|i: int| 0 <= i < values.drop_last().len() implies value_le(
            kind,
            (#[trigger] values.drop_last()[i]).value.value->0,
            last.value.value->0,
        ) by {
            assert(values.drop_last()[i] == values[i]);
        }
        lemma_all_below(values.drop_last(), kind, x, last);
    }
}

proof fn lemma_interval_grows(
    values: Seq<BoundaryView>,
    kind: TypeKind,
    x: ValueView,
    y: ValueView,
)
    requires
        value_le(kind, x, y),
    ensures
        interval_of(values, kind, x) <= interval_of(values, kind, y),
    decreases values.len(),
{
    if values.len() > 0 {
        lemma_interval_grows(values.drop_last(), kind, x, y);
        let b = values.last().value.value->0;
        if value_le(kind, b, x) {
            value_le_is_transitive(kind, b, x, y);
        }
    }
}

/// Between boundaries every value between the bounds of an assigned superfile
/// lies in its interval.
pub proof fn assigned_interval_holds_all(
    seg: SuperfileEntryView,
    column: Seq<char>,
    boundaries: Seq<Seq<u8>>,
    values: Seq<BoundaryView>,
    x: ValueView,
)
    requires
        partition_of(
            seg,
            PartitionStrategyView::ColumnRange { column, boundaries },
            values,
        ) is Ok,
        lookup(seg.scalar_stats, column) matches Some(b) && value_le(
            b.0.data_type.kind,
            b.0.value->0,
            x,
        ) && value_le(b.0.data_type.kind, x, b.1.value->0),
    ensures
        partition_of(seg, PartitionStrategyView::ColumnRange { column, boundaries }, values)
            matches Ok(PartitionKey::ColumnRange(i)) && i == interval_of(
            values,
            (lookup(seg.scalar_stats, column)->0).0.data_type.kind,
            x,
        ),
{
    let b = lookup(seg.scalar_stats, column)->0;
    let kind = b.0.data_type.kind;
    lemma_interval_grows(values, kind, b.0.value->0, x);
    lemma_interval_grows(values, kind, x, b.1.value->0);
}

// ---------------------------------------------------------------- meaning

/// The signed number of 64 bits.
pub open spec fn signed64(k: u64) -> int {
    if k < 0x8000_0000_0000_0000 {
        k as int
    } else {
        k - 0x1_0000_0000_0000_0000
    }
}

/// That the bounds of a column are these numbers, of a type that time ranges
/// go by.
pub open spec fn bounded_by(seg: SuperfileEntryView, column: Seq<char>, min: int, max: int) -> bool {
    &&& i64::MIN <= min <= i64::MAX
    &&& i64::MIN <= max <= i64::MAX
    &&& lookup(seg.scalar_stats, column) matches Some(b) && {
        &&& b.0.data_type.kind is Int64 || b.0.data_type.kind is Timestamp
        &&& b.1.data_type.kind is Int64 || b.1.data_type.kind is Timestamp
        &&& b.0.value == Some(ValueView::Int(min as i128))
        &&& b.1.value == Some(ValueView::Int(max as i128))
    }
}

/// The bucket of an assigned superfile, times the granularity, is at most every
/// value between its bounds, and that of the next bucket is more: superfiles of
/// two buckets have two keys.
pub proof fn assigned_bucket_lies_around_all(
    seg: SuperfileEntryView,
    column: Seq<char>,
    granularity_secs: i64,
    values: Seq<BoundaryView>,
    min: int,
    max: int,
    x: int,
)
    requires
        partition_of(
            seg,
            PartitionStrategyView::TimeRange { column, granularity_secs },
            values,
        ) is Ok,
        lookup(seg.scalar_stats, column) matches Some(b) && b.0.value == Some(
            ValueView::Int(min as i128),
        ) && b.1.value == Some(ValueView::Int(max as i128)),
        i128::MIN <= min <= x <= max <= i128::MAX,
    ensures
        granularity_secs > 0,
        partition_of(seg, PartitionStrategyView::TimeRange { column, granularity_secs }, values)
            matches Ok(PartitionKey::TimeRange(k)) && signed64(k) * granularity_secs <= x && x < (
        signed64(k) + 1) * granularity_secs,
{
    let g = granularity_secs as int;
    assigned_bucket_holds_all(seg, column, granularity_secs, values, x);
    let q = bucket(x, g);
    lemma_bucket_around(x, g);
    lemma_bucket_around(min, g);
}

proof fn lemma_bucket_around(x: int, g: int)
    requires
        g > 0,
    ensures
        bucket(x, g) * g <= x < (bucket(x, g) + 1) * g,
        i64::MIN <= x <= i64::MAX ==> i64::MIN <= bucket(x, g) <= i64::MAX,
{
    let q = x / g;
    vstd::arithmetic::div_mod::lemma_fundamental_div_mod(x, g);
    vstd::arithmetic::div_mod::lemma_mod_bound(x, g);
    assert(q * g <= x < (q + 1) * g) by (nonlinear_arith)
        requires
            x == g * q + x % g,
            0 <= x % g < g,
    ;
    if i64::MIN <= x <= i64::MAX {
        assert(i64::MIN <= q <= i64::MAX) by (nonlinear_arith)
            requires
                q * g <= x < (q + 1) * g,
                g > 0,
                i64::MIN <= x <= i64::MAX,
        ;
    }
}

proof fn lemma_bucket_is(x: int, g: int, q: int)
    requires
        g > 0,
        q * g <= x < (q + 1) * g,
    ensures
        bucket(x, g) == q,
{
    assert(x == q * g + (x - q * g) && 0 <= x - q * g < g) by (nonlinear_arith)
        requires
            q * g <= x < (q + 1) * g,
    ;
    vstd::arithmetic::div_mod::lemma_fundamental_div_mod_converse(x, g, q, x - q * g);
}

/// A superfile whose bounds lie in one bucket is assigned that bucket, and one
/// whose bounds lie in two is refused.
pub proof fn one_bucket_is_assigned(
    seg: SuperfileEntryView,
    column: Seq<char>,
    granularity_secs: i64,
    values: Seq<BoundaryView>,
    min: int,
    max: int,
    lo: int,
    hi: int,
)
    requires
        granularity_secs > 0,
        bounded_by(seg, column, min, max),
        lo * granularity_secs <= min < (lo + 1) * granularity_secs,
        hi * granularity_secs <= max < (hi + 1) * granularity_secs,
    ensures
        ({
            let r = partition_of(
                seg,
                PartitionStrategyView::TimeRange { column, granularity_secs },
                values,
            );
            &&& lo == hi ==> (r matches Ok(PartitionKey::TimeRange(k)) && signed64(k) == lo)
            &&& lo != hi ==> r is Err
        }),
{
    let g = granularity_secs as int;
    lemma_bucket_is(min, g, lo);
    lemma_bucket_is(max, g, hi);
    lemma_bucket_around(min, g);
}

/// Under a hash of several buckets a superfile goes where its rows were sharded
/// to, and one that does not say so, or names no bucket, is refused. One bucket
/// takes all.
pub proof fn hashed_superfiles_go_where_they_were_sharded(
    seg: SuperfileEntryView,
    column: Seq<char>,
    n_buckets: u32,
    values: Seq<BoundaryView>,
)
    ensures
        ({
            let r = partition_of(seg, PartitionStrategyView::Hash { column, n_buckets }, values);
            &&& n_buckets <= 1 ==> r == Ok::<PartitionKey, Seq<char>>(PartitionKey::Hash(0))
            &&& n_buckets > 1 ==> (r is Ok <==> (seg.partition_hint matches Some(b) && b
                < n_buckets))
            &&& n_buckets > 1 && r is Ok ==> (r->Ok_0 matches PartitionKey::Hash(b)
                && seg.partition_hint == Some(b))
        }),
{
}

/// Every value between the bounds of an assigned superfile is at or above the
/// boundaries before its interval and below those after it.
pub proof fn assigned_interval_bounds_every_value(
    seg: SuperfileEntryView,
    column: Seq<char>,
    boundaries: Seq<Seq<u8>>,
    values: Seq<BoundaryView>,
    x: ValueView,
    j: int,
)
    requires
        partition_of(
            seg,
            PartitionStrategyView::ColumnRange { column, boundaries },
            values,
        ) is Ok,
        lookup(seg.scalar_stats, column) matches Some(b) && {
            let kind = b.0.data_type.kind;
            &&& has_order(kind)
            &&& boundaries_ascend(values, kind)
            &&& value_le(kind, b.0.value->0, x)
            &&& value_le(kind, x, b.1.value->0)
            &&& fits(kind, x) && !is_nan(kind, x)
        },
        0 <= j < values.len(),
        ({
            let kind = (lookup(seg.scalar_stats, column)->0).0.data_type.kind;
            fits(kind, values[j].value.value->0) && !is_nan(kind, values[j].value.value->0)
        }),
    ensures
        ({
            let kind = (lookup(seg.scalar_stats, column)->0).0.data_type.kind;
            let bound = values[j].value.value->0;
            &&& partition_of(
                seg,
                PartitionStrategyView::ColumnRange { column, boundaries },
                values,
            ) matches Ok(PartitionKey::ColumnRange(i)) && (j < i ==> not_above(kind, bound, x)) && (
            j >= i ==> not_above(kind, x, bound))
        }),
{
    let kind = (lookup(seg.scalar_stats, column)->0).0.data_type.kind;
    let bound = values[j].value.value->0;
    assigned_interval_holds_all(seg, column, boundaries, values, x);
    interval_lies_between(values, kind, x, j);
    values_are_ordered_by_meaning(kind, bound, x);
    values_are_ordered_by_meaning(kind, x, bound);
}

/// Bytes that are read as a partition are those that it is written as, and
/// bytes of another length are refused.
pub proof fn partition_keys_are_written_back(bytes: Seq<u8>, strategy: PartitionStrategyView)
    ensures
        key_parsed(bytes, strategy) is Ok && bytes.len() > 0 ==> key_bytes(
            key_parsed(bytes, strategy)->Ok_0,
        ) == bytes && key_fits(key_parsed(bytes, strategy)->Ok_0, strategy),
        key_parsed(bytes, strategy) is Ok <==> bytes.len() == (match strategy {
            PartitionStrategyView::TimeRange { .. } => 8nat,
            PartitionStrategyView::Hash { .. } => 4nat,
            PartitionStrategyView::ColumnRange { .. } => 2nat,
        }) || (bytes.len() == 0 && !is_partitioned(strategy)),
        key_parsed(bytes, strategy) is Ok && bytes.len() == 0 ==> key_parsed(bytes, strategy)
            == Ok::<PartitionKey, Seq<char>>(PartitionKey::Hash(0)),
{
    lemma_pow256_widths();
    le_value_round_trip(bytes);
}

/// Where there are several partitions, two of them are never stored under one
/// key.
pub proof fn stored_keys_tell_partitions_apart(
    strategy: PartitionStrategyView,
    a: PartitionKey,
    b: PartitionKey,
)
    requires
        key_fits(a, strategy),
        key_fits(b, strategy),
        is_partitioned(strategy),
    ensures
        stored_key(strategy, a) == stored_key(strategy, b) <==> a == b,
{
    partition_key_round_trip(a, strategy);
    partition_key_round_trip(b, strategy);
}

proof fn lemma_one_interval(values: Seq<BoundaryView>, kind: TypeKind, min: ValueView, max: ValueView)
    requires
        forall|j: int|
            0 <= j < values.len() ==> value_le(kind, (#[trigger] values[j]).value.value->0, min)
                == value_le(kind, values[j].value.value->0, max),
    ensures
        interval_of(values, kind, min) == interval_of(values, kind, max),
        interval_of(values, kind, min) <= values.len(),
    decreases values.len(),
{
    if values.len() > 0 {
        let rest = values.drop_last();
        assert forall|j: int| 0 <= j < rest.len() implies value_le(
            kind,
            (#[trigger] rest[j]).value.value->0,
            min,
        ) == value_le(kind, rest[j].value.value->0, max) by {
            assert(rest[j] == values[j]);
        }
        lemma_one_interval(rest, kind, min, max);
        assert(values[values.len() - 1] == values.last());
    }
}

/// A superfile whose bounds no boundary parts has an interval, as long as no more
/// intervals are asked for than can be numbered.
pub proof fn superfiles_within_an_interval_are_assigned(
    seg: SuperfileEntryView,
    column: Seq<char>,
    values: Seq<BoundaryView>,
)
    requires
        values.len() <= 65535,
        lookup(seg.scalar_stats, column) matches Some(b) && {
            let kind = b.0.data_type.kind;
            &&& b.1.data_type.kind == kind
            &&& b.0.value is Some && b.1.value is Some
            &&& forall|j: int|
                0 <= j < values.len() ==> (#[trigger] values[j]).value.data_type.kind == kind
                    && value_le(kind, values[j].value.value->0, b.0.value->0) == value_le(
                    kind,
                    values[j].value.value->0,
                    b.1.value->0,
                )
        },
    ensures
        range_of(seg, column, values) is Ok,
{
    let b = lookup(seg.scalar_stats, column)->0;
    lemma_one_interval(values, b.0.data_type.kind, b.0.value->0, b.1.value->0);
}

} // verus!
