//! Column summaries as byte strings.

use vstd::prelude::*;
use vstd::utf8::{decode_utf8, encode_utf8, valid_utf8};

use crate::bytes::{
    be_bytes_i128, be_i128_round_trip, be_value_i128, i128_from_be, i128_to_be, le_bytes,
    le_bytes_round_trip, le_value, le_value_round_trip, lemma_pow256_widths, push_le, push_u32s,
    read_le, read_u32s, u32s_bytes, u32s_parsed, u32s_round_trip,
};
use crate::column_map::{ascending, inserted, key_lt, lemma_insert_last, ColumnMap};
use crate::lex::bytes_copy;
use crate::manifest::bloom::{is_filter, Bloom};
use crate::manifest::entry::{
    FtsSummary, FtsSummaryView, VectorSummary, VectorSummaryView,
};
use crate::packing::{
    byte_views, pack, packable, packed, packed_round_trip, push_all, unpack, unpacked,
};
use crate::scalar::{
    opt_value, DataType, DataTypeView, Scalar, ScalarView, TypeKind, ScalarValue, ValueView,
};
use crate::text::utf8_text;

verus! {

/// Why a byte string is not a summary.
#[derive(Clone, Copy, PartialEq, Eq, Structural, Debug)]
pub enum DecodeError {
    /// It ends inside an item.
    Truncated,
    /// It has too few or too many items.
    BadShape,
    /// A name or a text is not UTF-8.
    BadText,
    /// A tag, a number or a filter is not one.
    BadValue,
}

/// What a column map can hold as bytes.
pub trait Summary: View + Sized {
    /// The bytes of a value.
    spec fn body(v: Self::V) -> Seq<u8>;

    /// The value of bytes.
    spec fn parsed(b: Seq<u8>) -> Result<Self::V, DecodeError>;

    /// The values that there are.
    spec fn valid(v: Self::V) -> bool;

    fn write_body(&self) -> (r: Vec<u8>)
        ensures
            r@ == Self::body(self@),
            Self::valid(self@),
    ;

    fn read_body(b: &[u8]) -> (r: Result<Self, DecodeError>)
        ensures
            match r {
                Ok(v) => Self::parsed(b@) == Ok::<Self::V, DecodeError>(v@),
                Err(e) => Self::parsed(b@) == Err::<Self::V, DecodeError>(e),
            },
    ;

    proof fn body_round_trip(v: Self::V)
        requires
            Self::valid(v),
        ensures
            Self::parsed(Self::body(v)) == Ok::<Self::V, DecodeError>(v),
    ;
}

// ---------------------------------------------------------------- maps

/// The bytes of one entry: the name and the body.
pub open spec fn entry_bytes<T: Summary>(e: (Seq<char>, T::V)) -> Seq<u8> {
    packed(seq![encode_utf8(e.0), T::body(e.1)])
}

/// The bytes of a column map.
pub open spec fn map_bytes<T: Summary>(s: Seq<(Seq<char>, T::V)>) -> Seq<u8> {
    packed(Seq::new(s.len(), |i: int| entry_bytes::<T>(s[i])))
}

/// The entry that bytes hold.
pub open spec fn entry_parsed<T: Summary>(b: Seq<u8>) -> Result<(Seq<char>, T::V), DecodeError> {
    match unpacked(b) {
        None => Err(DecodeError::Truncated),
        Some(f) => if f.len() != 2 {
            Err(DecodeError::BadShape)
        } else if !valid_utf8(f[0]) {
            Err(DecodeError::BadText)
        } else {
            match T::parsed(f[1]) {
                Err(e) => Err(e),
                Ok(v) => Ok((decode_utf8(f[0]), v)),
            }
        },
    }
}

/// The map of a list of entries, later entries over earlier ones.
pub open spec fn entries_parsed<T: Summary>(items: Seq<Seq<u8>>) -> Result<
    Seq<(Seq<char>, T::V)>,
    DecodeError,
>
    decreases items.len(),
{
    if items.len() == 0 {
        Ok(Seq::empty())
    } else {
        match entries_parsed::<T>(items.drop_last()) {
            Err(e) => Err(e),
            Ok(m) => match entry_parsed::<T>(items.last()) {
                Err(e) => Err(e),
                Ok(entry) => Ok(inserted(m, entry.0, entry.1)),
            },
        }
    }
}

/// The column map that bytes hold.
pub open spec fn map_parsed<T: Summary>(b: Seq<u8>) -> Result<
    Seq<(Seq<char>, T::V)>,
    DecodeError,
> {
    match unpacked(b) {
        None => Err(DecodeError::Truncated),
        Some(items) => entries_parsed::<T>(items),
    }
}

/// Bytes that `write_map` can write: everything fits and is valid.
pub open spec fn map_writable<T: Summary>(s: Seq<(Seq<char>, T::V)>) -> bool {
    &&& ascending(s)
    &&& forall|i: int|
        0 <= i < s.len() ==> T::valid((#[trigger] s[i]).1) && packable(
            seq![encode_utf8(s[i].0), T::body(s[i].1)],
        ) && entry_bytes::<T>(s[i]).len() <= u64::MAX
}

/// Reading a map gives back the map that was written.
pub proof fn map_round_trip<T: Summary>(s: Seq<(Seq<char>, T::V)>)
    requires
        map_writable::<T>(s),
    ensures
        map_parsed::<T>(map_bytes::<T>(s)) == Ok::<Seq<(Seq<char>, T::V)>, DecodeError>(s),
{
    let items = Seq::new(s.len(), |i: int| entry_bytes::<T>(s[i]));
    assert(packable(items)) by {
        assert forall|i: int| 0 <= i < items.len() implies (#[trigger] items[i]).len()
            <= u64::MAX by {
            assert(items[i] == entry_bytes::<T>(s[i]));
        }
    }
    packed_round_trip(items);
    lemma_entries_round_trip::<T>(s, items, s.len() as int);
    assert(items.take(s.len() as int) =~= items);
    assert(s.take(s.len() as int) =~= s);
}

proof fn lemma_entries_round_trip<T: Summary>(
    s: Seq<(Seq<char>, T::V)>,
    items: Seq<Seq<u8>>,
    n: int,
)
    requires
        map_writable::<T>(s),
        items == Seq::new(s.len(), |i: int| entry_bytes::<T>(s[i])),
        0 <= n <= s.len(),
    ensures
        entries_parsed::<T>(items.take(n)) == Ok::<Seq<(Seq<char>, T::V)>, DecodeError>(s.take(n)),
    decreases n,
{
    if n == 0 {
        assert(s.take(0) =~= Seq::empty());
    } else {
        lemma_entries_round_trip::<T>(s, items, n - 1);
        assert(items.take(n).drop_last() =~= items.take(n - 1));
        let e = s[n - 1];
        assert(items.take(n).last() == entry_bytes::<T>(e));
        let f = seq![encode_utf8(e.0), T::body(e.1)];
        packed_round_trip(f);
        vstd::utf8::encode_utf8_valid_utf8(e.0);
        vstd::utf8::encode_utf8_decode_utf8(e.0);
        T::body_round_trip(e.1);
        assert forall|j: int| 0 <= j < n - 1 implies key_lt(
            #[trigger] s.take(n - 1)[j].0,
            e.0,
        ) by {
            assert(key_lt(s[j].0, s[n - 1].0));
        }
        lemma_insert_last(s.take(n - 1), e.0, e.1);
        assert(s.take(n - 1).push(e) =~= s.take(n));
    }
}

fn write_entry<T: Summary>(name: &str, value: &T) -> (r: Vec<u8>)
    ensures
        r@ == entry_bytes::<T>((name@, value@)),
        packable(seq![encode_utf8(name@), T::body(value@)]),
        T::valid(value@),
{
    let mut fields: Vec<Vec<u8>> = Vec::new();
    fields.push(bytes_copy(name.as_bytes()));
    fields.push(value.write_body());
    assert(byte_views(fields@) =~= seq![encode_utf8(name@), T::body(value@)]);
    pack(fields.as_slice())
}

/// The bytes of a column map.
pub fn write_map<T: Summary>(m: &ColumnMap<T>) -> (r: Vec<u8>)
    ensures
        r@ == map_bytes::<T>(m@),
        map_writable::<T>(m@),
{
    m.note_ascending();
    let mut items: Vec<Vec<u8>> = Vec::new();
    let mut i: usize = 0;
    let n: usize = m.len();
    while i < n
        invariant
            n == m@.len(),
            i <= n,
            items@.len() == i,
            forall|k: int|
                0 <= k < i ==> (#[trigger] items@[k])@ == entry_bytes::<T>(m@[k]) && T::valid(m@[k].1)
                    && packable(seq![encode_utf8(m@[k].0), T::body(m@[k].1)]),
        decreases n - i,
    {
        let item = write_entry::<T>(m.key_at(i).as_str(), m.value_at(i));
        items.push(item);
        i = i + 1;
    }
    let r = pack(items.as_slice());
    proof {
        assert(byte_views(items@) =~= Seq::new(m@.len(), |i: int| entry_bytes::<T>(m@[i])));
        assert forall|k: int| 0 <= k < m@.len() implies T::valid((#[trigger] m@[k]).1) && packable(
            seq![encode_utf8(m@[k].0), T::body(m@[k].1)],
        ) && entry_bytes::<T>(m@[k]).len() <= u64::MAX by {
            assert(byte_views(items@)[k] == items@[k]@);
        }
    }
    r
}

fn read_entry<T: Summary>(b: &[u8]) -> (r: Result<(String, T), DecodeError>)
    ensures
        match r {
            Ok(e) => entry_parsed::<T>(b@) == Ok::<(Seq<char>, T::V), DecodeError>((e.0@, e.1@)),
            Err(e) => entry_parsed::<T>(b@) == Err::<(Seq<char>, T::V), DecodeError>(e),
        },
{
    match unpack(b) {
        None => Err(DecodeError::Truncated),
        Some(f) => {
            if f.len() != 2 {
                return Err(DecodeError::BadShape);
            }
            assert(byte_views(f@)[0] == f@[0]@);
            assert(byte_views(f@)[1] == f@[1]@);
            match utf8_text(f[0].as_slice()) {
                Err(_) => Err(DecodeError::BadText),
                Ok(name) => {
                    proof {
                        vstd::utf8::encode_utf8_decode_utf8(name@);
                    }
                    match T::read_body(f[1].as_slice()) {
                        Err(e) => Err(e),
                        Ok(v) => Ok((name, v)),
                    }
                },
            }
        },
    }
}

/// The column map that bytes hold.
pub fn read_map<T: Summary>(b: &[u8]) -> (r: Result<ColumnMap<T>, DecodeError>)
    ensures
        match r {
            Ok(m) => map_parsed::<T>(b@) == Ok::<Seq<(Seq<char>, T::V)>, DecodeError>(m@),
            Err(e) => map_parsed::<T>(b@) == Err::<Seq<(Seq<char>, T::V)>, DecodeError>(e),
        },
{
    let items = match unpack(b) {
        None => {
            return Err(DecodeError::Truncated);
        },
        Some(items) => items,
    };
    let ghost v = byte_views(items@);
    let mut m: ColumnMap<T> = ColumnMap::new();
    let mut i: usize = 0;
    proof {
        assert(v.take(0) =~= Seq::empty());
    }
    while i < items.len()
        invariant
            i <= items@.len(),
            v == byte_views(items@),
            map_parsed::<T>(b@) == entries_parsed::<T>(v),
            entries_parsed::<T>(v.take(i as int)) == Ok::<Seq<(Seq<char>, T::V)>, DecodeError>(m@),
        decreases items@.len() - i,
    {
        proof {
            assert(v.take(i as int + 1).drop_last() =~= v.take(i as int));
            assert(v.take(i as int + 1).last() == items@[i as int]@);
        }
        match read_entry::<T>(items[i].as_slice()) {
            Err(e) => {
                proof {
                    lemma_entries_error::<T>(v, i as int + 1);
                }
                return Err(e);
            },
            Ok((name, value)) => {
                m.insert(name, value);
            },
        }
        i = i + 1;
    }
    proof {
        assert(v.take(i as int) =~= v);
    }
    Ok(m)
}

proof fn lemma_entries_error<T: Summary>(v: Seq<Seq<u8>>, n: int)
    requires
        0 <= n <= v.len(),
        entries_parsed::<T>(v.take(n)) is Err,
    ensures
        entries_parsed::<T>(v) == entries_parsed::<T>(v.take(n)),
    decreases v.len() - n,
{
    if n < v.len() {
        assert(v.take(n + 1).drop_last() =~= v.take(n));
        lemma_entries_error::<T>(v, n + 1);
    } else {
        assert(v.take(n) =~= v);
    }
}

// ---------------------------------------------------------------- terms

/// The four items of a term summary.
pub open spec fn fts_fields(v: FtsSummaryView) -> Seq<Seq<u8>> {
    seq![
        v.term_bloom,
        le_bytes(v.n_terms_distinct as nat, 4),
        v.term_range.0,
        v.term_range.1,
    ]
}

impl Summary for FtsSummary {
    open spec fn body(v: FtsSummaryView) -> Seq<u8> {
        packed(fts_fields(v))
    }

    open spec fn parsed(b: Seq<u8>) -> Result<FtsSummaryView, DecodeError> {
        match unpacked(b) {
            None => Err(DecodeError::Truncated),
            Some(f) => if f.len() != 4 {
                Err(DecodeError::BadShape)
            } else if !is_filter(f[0]) || f[1].len() != 4 {
                Err(DecodeError::BadValue)
            } else {
                Ok(
                    FtsSummaryView {
                        term_bloom: f[0],
                        n_terms_distinct: le_value(f[1]) as u32,
                        term_range: (f[2], f[3]),
                    },
                )
            },
        }
    }

    open spec fn valid(v: FtsSummaryView) -> bool {
        is_filter(v.term_bloom) && packable(fts_fields(v))
    }

    fn write_body(&self) -> (r: Vec<u8>) {
        self.term_bloom.note_filter();
        let mut fields: Vec<Vec<u8>> = Vec::new();
        fields.push(self.term_bloom.to_bytes());
        let mut n: Vec<u8> = Vec::new();
        push_le(&mut n, self.n_terms_distinct as u128, 4);
        proof {
            assert(n@ =~= le_bytes(self.n_terms_distinct as nat, 4));
        }
        fields.push(n);
        fields.push(bytes_copy(self.term_range.0.as_slice()));
        fields.push(bytes_copy(self.term_range.1.as_slice()));
        assert(byte_views(fields@) =~= fts_fields(self@));
        pack(fields.as_slice())
    }

    fn read_body(b: &[u8]) -> (r: Result<Self, DecodeError>) {
        match unpack(b) {
            None => Err(DecodeError::Truncated),
            Some(f) => {
                if f.len() != 4 {
                    return Err(DecodeError::BadShape);
                }
                assert(byte_views(f@)[0] == f@[0]@ && byte_views(f@)[1] == f@[1]@);
                assert(byte_views(f@)[2] == f@[2]@ && byte_views(f@)[3] == f@[3]@);
                match Bloom::from_bytes(f[0].as_slice()) {
                    None => Err(DecodeError::BadValue),
                    Some(term_bloom) => {
                        if f[1].len() != 4 {
                            return Err(DecodeError::BadValue);
                        }
                        let n = read_le(f[1].as_slice());
                        proof {
                            le_value_round_trip(f@[1]@);
                            lemma_pow256_widths();
                        }
                        Ok(
                            FtsSummary {
                                term_bloom,
                                n_terms_distinct: n as u32,
                                term_range: (
                                    bytes_copy(f[2].as_slice()),
                                    bytes_copy(f[3].as_slice()),
                                ),
                            },
                        )
                    },
                }
            },
        }
    }

    proof fn body_round_trip(v: FtsSummaryView) {
        packed_round_trip(fts_fields(v));
        lemma_pow256_widths();
        le_bytes_round_trip(v.n_terms_distinct as nat, 4);
    }
}

// ---------------------------------------------------------------- spheres

impl Summary for VectorSummary {
    open spec fn body(v: VectorSummaryView) -> Seq<u8> {
        le_bytes(v.radius as nat, 4) + u32s_bytes(v.centroid)
    }

    open spec fn parsed(b: Seq<u8>) -> Result<VectorSummaryView, DecodeError> {
        if b.len() < 4 || b.len() % 4 != 0 {
            Err(DecodeError::Truncated)
        } else {
            Ok(
                VectorSummaryView {
                    centroid: u32s_parsed(b.skip(4)),
                    radius: le_value(b.take(4)) as u32,
                },
            )
        }
    }

    open spec fn valid(v: VectorSummaryView) -> bool {
        true
    }

    fn write_body(&self) -> (r: Vec<u8>) {
        let mut out: Vec<u8> = Vec::new();
        push_le(&mut out, self.radius as u128, 4);
        push_u32s(&mut out, self.centroid.as_slice());
        proof {
            assert(out@ =~= le_bytes(self.radius as nat, 4) + u32s_bytes(self.centroid@));
        }
        out
    }

    fn read_body(b: &[u8]) -> (r: Result<Self, DecodeError>) {
        if b.len() < 4 || b.len() % 4 != 0 {
            return Err(DecodeError::Truncated);
        }
        let n = read_le(vstd::slice::slice_subrange(b, 0, 4));
        let centroid = read_u32s(vstd::slice::slice_subrange(b, 4, b.len()));
        proof {
            le_value_round_trip(b@.take(4));
            lemma_pow256_widths();
            assert(b@.subrange(0, 4) =~= b@.take(4));
            assert(b@.subrange(4, b@.len() as int) =~= b@.skip(4));
        }
        Ok(VectorSummary { centroid, radius: n as u32 })
    }

    proof fn body_round_trip(v: VectorSummaryView) {
        let b = Self::body(v);
        lemma_pow256_widths();
        le_bytes_round_trip(v.radius as nat, 4);
        u32s_round_trip(v.centroid);
        assert(b.take(4) =~= le_bytes(v.radius as nat, 4));
        assert(b.skip(4) =~= u32s_bytes(v.centroid));
    }
}

// ---------------------------------------------------------------- scalars

/// The tag of a kind.
pub open spec fn kind_tag(kind: TypeKind) -> u8 {
    match kind {
        TypeKind::Int8 => 0,
        TypeKind::Int16 => 1,
        TypeKind::Int32 => 2,
        TypeKind::Int64 => 3,
        TypeKind::UInt8 => 4,
        TypeKind::UInt16 => 5,
        TypeKind::UInt32 => 6,
        TypeKind::UInt64 => 7,
        TypeKind::Float32 => 8,
        TypeKind::Float64 => 9,
        TypeKind::Boolean => 10,
        TypeKind::Utf8 => 11,
        TypeKind::LargeUtf8 => 12,
        TypeKind::Decimal128 { .. } => 13,
        TypeKind::Timestamp => 14,
        TypeKind::FixedSizeList { .. } => 15,
        TypeKind::Other => 16,
    }
}

/// A kind as bytes: its tag, and for the kinds with parameters a byte and a
/// sixteen-byte number.
pub open spec fn kind_bytes(kind: TypeKind) -> Seq<u8> {
    match kind {
        TypeKind::Decimal128 { precision, scale } => seq![13u8, precision] + be_bytes_i128(
            scale as i128,
        ),
        TypeKind::FixedSizeList { float32_items, list_size } => seq![
            15u8,
            if float32_items {
                1u8
            } else {
                0u8
            },
        ] + be_bytes_i128(list_size as i128),
        _ => seq![kind_tag(kind)],
    }
}

/// The kind of a tag without parameters.
pub open spec fn plain_kind(tag: u8) -> Option<TypeKind> {
    match tag {
        0 => Some(TypeKind::Int8),
        1 => Some(TypeKind::Int16),
        2 => Some(TypeKind::Int32),
        3 => Some(TypeKind::Int64),
        4 => Some(TypeKind::UInt8),
        5 => Some(TypeKind::UInt16),
        6 => Some(TypeKind::UInt32),
        7 => Some(TypeKind::UInt64),
        8 => Some(TypeKind::Float32),
        9 => Some(TypeKind::Float64),
        10 => Some(TypeKind::Boolean),
        11 => Some(TypeKind::Utf8),
        12 => Some(TypeKind::LargeUtf8),
        14 => Some(TypeKind::Timestamp),
        16 => Some(TypeKind::Other),
        _ => None,
    }
}

/// The kind that bytes hold.
pub open spec fn kind_parsed(b: Seq<u8>) -> Option<TypeKind> {
    if b.len() == 1 {
        plain_kind(b[0])
    } else if b.len() != 18 {
        None
    } else {
        let n = be_value_i128(b.skip(2));
        if b[0] == 13 && i8::MIN <= n <= i8::MAX {
            Some(TypeKind::Decimal128 { precision: b[1], scale: n as i8 })
        } else if b[0] == 15 && b[1] <= 1 && i32::MIN <= n <= i32::MAX {
            Some(TypeKind::FixedSizeList { float32_items: b[1] == 1, list_size: n as i32 })
        } else {
            None
        }
    }
}

proof fn lemma_kind_round_trip(kind: TypeKind)
    ensures
        kind_parsed(kind_bytes(kind)) == Some(kind),
        kind_bytes(kind).len() <= 18,
{
    match kind {
        TypeKind::Decimal128 { precision, scale } => {
            be_i128_round_trip(scale as i128);
            assert(kind_bytes(kind).skip(2) =~= be_bytes_i128(scale as i128));
        },
        TypeKind::FixedSizeList { float32_items, list_size } => {
            be_i128_round_trip(list_size as i128);
            assert(kind_bytes(kind).skip(2) =~= be_bytes_i128(list_size as i128));
        },
        _ => {},
    }
}

fn tag_of(kind: TypeKind) -> (r: u8)
    ensures
        r == kind_tag(kind),
{
    match kind {
        TypeKind::Int8 => 0,
        TypeKind::Int16 => 1,
        TypeKind::Int32 => 2,
        TypeKind::Int64 => 3,
        TypeKind::UInt8 => 4,
        TypeKind::UInt16 => 5,
        TypeKind::UInt32 => 6,
        TypeKind::UInt64 => 7,
        TypeKind::Float32 => 8,
        TypeKind::Float64 => 9,
        TypeKind::Boolean => 10,
        TypeKind::Utf8 => 11,
        TypeKind::LargeUtf8 => 12,
        TypeKind::Decimal128 { .. } => 13,
        TypeKind::Timestamp => 14,
        TypeKind::FixedSizeList { .. } => 15,
        TypeKind::Other => 16,
    }
}

fn kind_of_tag(tag: u8) -> (r: Option<TypeKind>)
    ensures
        r == plain_kind(tag),
{
    match tag {
        0 => Some(TypeKind::Int8),
        1 => Some(TypeKind::Int16),
        2 => Some(TypeKind::Int32),
        3 => Some(TypeKind::Int64),
        4 => Some(TypeKind::UInt8),
        5 => Some(TypeKind::UInt16),
        6 => Some(TypeKind::UInt32),
        7 => Some(TypeKind::UInt64),
        8 => Some(TypeKind::Float32),
        9 => Some(TypeKind::Float64),
        10 => Some(TypeKind::Boolean),
        11 => Some(TypeKind::Utf8),
        12 => Some(TypeKind::LargeUtf8),
        14 => Some(TypeKind::Timestamp),
        16 => Some(TypeKind::Other),
        _ => None,
    }
}

fn write_kind(kind: TypeKind) -> (r: Vec<u8>)
    ensures
        r@ == kind_bytes(kind),
{
    let mut out: Vec<u8> = Vec::new();
    out.push(tag_of(kind));
    match kind {
        TypeKind::Decimal128 { precision, scale } => {
            out.push(precision);
            push_all(&mut out, i128_to_be(scale as i128).as_slice());
        },
        TypeKind::FixedSizeList { float32_items, list_size } => {
            out.push(if float32_items {
                1
            } else {
                0
            });
            push_all(&mut out, i128_to_be(list_size as i128).as_slice());
        },
        _ => {},
    }
    proof {
        assert(out@ =~= kind_bytes(kind));
    }
    out
}

fn read_kind(b: &[u8]) -> (r: Option<TypeKind>)
    ensures
        r == kind_parsed(b@),
{
    if b.len() == 1 {
        return kind_of_tag(b[0]);
    }
    if b.len() != 18 {
        return None;
    }
    let n = i128_from_be(vstd::slice::slice_subrange(b, 2, 18));
    proof {
        assert(b@.subrange(2, 18) =~= b@.skip(2));
    }
    if b[0] == 13 && -128 <= n && n <= 127 {
        Some(TypeKind::Decimal128 { precision: b[1], scale: n as i8 })
    } else if b[0] == 15 && b[1] <= 1 && -2147483648 <= n && n <= 2147483647 {
        Some(TypeKind::FixedSizeList { float32_items: b[1] == 1, list_size: n as i32 })
    } else {
        None
    }
}

/// An optional value as bytes: a tag and the value.
pub open spec fn value_bytes(v: Option<ValueView>) -> Seq<u8> {
    match v {
        None => seq![0u8],
        Some(ValueView::Int(x)) => seq![1u8] + be_bytes_i128(x),
        Some(ValueView::Float(x)) => seq![2u8] + le_bytes(x as nat, 8),
        Some(ValueView::Bool(x)) => seq![3u8, if x { 1u8 } else { 0u8 }],
        Some(ValueView::Text(x)) => seq![4u8] + encode_utf8(x),
    }
}

/// The optional value that bytes hold.
pub open spec fn value_parsed(b: Seq<u8>) -> Result<Option<ValueView>, DecodeError> {
    if b.len() == 0 {
        Err(DecodeError::Truncated)
    } else if b[0] == 0 && b.len() == 1 {
        Ok(None)
    } else if b[0] == 1 && b.len() == 17 {
        Ok(Some(ValueView::Int(be_value_i128(b.skip(1)))))
    } else if b[0] == 2 && b.len() == 9 {
        Ok(Some(ValueView::Float(le_value(b.skip(1)) as u64)))
    } else if b[0] == 3 && b.len() == 2 && b[1] <= 1 {
        Ok(Some(ValueView::Bool(b[1] == 1)))
    } else if b[0] == 4 {
        if valid_utf8(b.skip(1)) {
            Ok(Some(ValueView::Text(decode_utf8(b.skip(1)))))
        } else {
            Err(DecodeError::BadText)
        }
    } else {
        Err(DecodeError::BadValue)
    }
}

proof fn lemma_value_round_trip(v: Option<ValueView>)
    ensures
        value_parsed(value_bytes(v)) == Ok::<Option<ValueView>, DecodeError>(v),
{
    let b = value_bytes(v);
    match v {
        None => {},
        Some(ValueView::Int(x)) => {
            be_i128_round_trip(x);
            assert(b.skip(1) =~= be_bytes_i128(x));
        },
        Some(ValueView::Float(x)) => {
            lemma_pow256_widths();
            le_bytes_round_trip(x as nat, 8);
            assert(b.skip(1) =~= le_bytes(x as nat, 8));
        },
        Some(ValueView::Bool(x)) => {},
        Some(ValueView::Text(x)) => {
            vstd::utf8::encode_utf8_valid_utf8(x);
            vstd::utf8::encode_utf8_decode_utf8(x);
            assert(b.skip(1) =~= encode_utf8(x));
        },
    }
}

fn write_value(v: &Option<ScalarValue>) -> (r: Vec<u8>)
    ensures
        r@ == value_bytes(opt_value(*v)),
{
    let mut out: Vec<u8> = Vec::new();
    match v {
        None => {
            out.push(0);
        },
        Some(ScalarValue::Int(x)) => {
            out.push(1);
            push_all(&mut out, i128_to_be(*x).as_slice());
        },
        Some(ScalarValue::Float(x)) => {
            out.push(2);
            push_le(&mut out, *x as u128, 8);
        },
        Some(ScalarValue::Bool(x)) => {
            out.push(3);
            out.push(if *x {
                1
            } else {
                0
            });
        },
        Some(ScalarValue::Text(x)) => {
            out.push(4);
            push_all(&mut out, x.as_str().as_bytes());
        },
    }
    proof {
        assert(out@ =~= value_bytes(opt_value(*v)));
    }
    out
}

fn read_value(b: &[u8]) -> (r: Result<Option<ScalarValue>, DecodeError>)
    ensures
        match r {
            Ok(v) => value_parsed(b@) == Ok::<Option<ValueView>, DecodeError>(opt_value(v)),
            Err(e) => value_parsed(b@) == Err::<Option<ValueView>, DecodeError>(e),
        },
{
    let n: usize = b.len();
    if n == 0 {
        return Err(DecodeError::Truncated);
    }
    let rest = vstd::slice::slice_subrange(b, 1, n);
    proof {
        assert(b@.subrange(1, n as int) =~= b@.skip(1));
    }
    if b[0] == 0 && n == 1 {
        Ok(None)
    } else if b[0] == 1 && n == 17 {
        Ok(Some(ScalarValue::Int(i128_from_be(rest))))
    } else if b[0] == 2 && n == 9 {
        proof {
            le_value_round_trip(rest@);
            lemma_pow256_widths();
        }
        Ok(Some(ScalarValue::Float(read_le(rest) as u64)))
    } else if b[0] == 3 && n == 2 && b[1] <= 1 {
        Ok(Some(ScalarValue::Bool(b[1] == 1)))
    } else if b[0] == 4 {
        match utf8_text(rest) {
            Ok(s) => {
                proof {
                    vstd::utf8::encode_utf8_decode_utf8(s@);
                }
                Ok(Some(ScalarValue::Text(s)))
            },
            Err(_) => Err(DecodeError::BadText),
        }
    } else {
        Err(DecodeError::BadValue)
    }
}

/// The six items of a pair of scalars: name, kind and value of each.
pub open spec fn pair_fields(v: (ScalarView, ScalarView)) -> Seq<Seq<u8>> {
    seq![
        encode_utf8(v.0.data_type.name),
        kind_bytes(v.0.data_type.kind),
        value_bytes(v.0.value),
        encode_utf8(v.1.data_type.name),
        kind_bytes(v.1.data_type.kind),
        value_bytes(v.1.value),
    ]
}

/// The scalar of a name, a kind and a value in bytes.
pub open spec fn scalar_parsed(name: Seq<u8>, kind: Seq<u8>, value: Seq<u8>) -> Result<
    ScalarView,
    DecodeError,
> {
    if !valid_utf8(name) {
        Err(DecodeError::BadText)
    } else {
        match kind_parsed(kind) {
            None => Err(DecodeError::BadValue),
            Some(k) => match value_parsed(value) {
                Err(e) => Err(e),
                Ok(v) => Ok(
                    ScalarView {
                        data_type: DataTypeView { kind: k, name: decode_utf8(name) },
                        value: v,
                    },
                ),
            },
        }
    }
}

fn read_scalar(name: &[u8], kind: &[u8], value: &[u8]) -> (r: Result<Scalar, DecodeError>)
    ensures
        match r {
            Ok(s) => scalar_parsed(name@, kind@, value@) == Ok::<ScalarView, DecodeError>(s@),
            Err(e) => scalar_parsed(name@, kind@, value@) == Err::<ScalarView, DecodeError>(e),
        },
{
    match utf8_text(name) {
        Err(_) => Err(DecodeError::BadText),
        Ok(name) => {
            proof {
                vstd::utf8::encode_utf8_decode_utf8(name@);
            }
            match read_kind(kind) {
                None => Err(DecodeError::BadValue),
                Some(k) => match read_value(value) {
                    Err(e) => Err(e),
                    Ok(v) => Ok(Scalar { data_type: DataType { kind: k, name }, value: v }),
                },
            }
        },
    }
}

impl Summary for (Scalar, Scalar) {
    open spec fn body(v: (ScalarView, ScalarView)) -> Seq<u8> {
        packed(pair_fields(v))
    }

    open spec fn parsed(b: Seq<u8>) -> Result<(ScalarView, ScalarView), DecodeError> {
        match unpacked(b) {
            None => Err(DecodeError::Truncated),
            Some(f) => if f.len() != 6 {
                Err(DecodeError::BadShape)
            } else {
                match scalar_parsed(f[0], f[1], f[2]) {
                    Err(e) => Err(e),
                    Ok(lo) => match scalar_parsed(f[3], f[4], f[5]) {
                        Err(e) => Err(e),
                        Ok(hi) => Ok((lo, hi)),
                    },
                }
            },
        }
    }

    open spec fn valid(v: (ScalarView, ScalarView)) -> bool {
        packable(pair_fields(v))
    }

    fn write_body(&self) -> (r: Vec<u8>) {
        let mut fields: Vec<Vec<u8>> = Vec::new();
        fields.push(bytes_copy(self.0.data_type.name.as_str().as_bytes()));
        fields.push(write_kind(self.0.data_type.kind));
        fields.push(write_value(&self.0.value));
        fields.push(bytes_copy(self.1.data_type.name.as_str().as_bytes()));
        fields.push(write_kind(self.1.data_type.kind));
        fields.push(write_value(&self.1.value));
        assert(byte_views(fields@) =~= pair_fields(self@));
        pack(fields.as_slice())
    }

    fn read_body(b: &[u8]) -> (r: Result<Self, DecodeError>) {
        match unpack(b) {
            None => Err(DecodeError::Truncated),
            Some(f) => {
                if f.len() != 6 {
                    return Err(DecodeError::BadShape);
                }
                assert(forall|k: int| 0 <= k < 6 ==> byte_views(f@)[k] == (#[trigger] f@[k])@);
                match read_scalar(f[0].as_slice(), f[1].as_slice(), f[2].as_slice()) {
                    Err(e) => Err(e),
                    Ok(lo) => match read_scalar(f[3].as_slice(), f[4].as_slice(), f[5].as_slice()) {
                        Err(e) => Err(e),
                        Ok(hi) => Ok((lo, hi)),
                    },
                }
            },
        }
    }

    proof fn body_round_trip(v: (ScalarView, ScalarView)) {
        packed_round_trip(pair_fields(v));
        vstd::utf8::encode_utf8_valid_utf8(v.0.data_type.name);
        vstd::utf8::encode_utf8_decode_utf8(v.0.data_type.name);
        vstd::utf8::encode_utf8_valid_utf8(v.1.data_type.name);
        vstd::utf8::encode_utf8_decode_utf8(v.1.data_type.name);
        lemma_kind_round_trip(v.0.data_type.kind);
        lemma_kind_round_trip(v.1.data_type.kind);
        lemma_value_round_trip(v.0.value);
        lemma_value_round_trip(v.1.value);
    }
}

} // verus!
