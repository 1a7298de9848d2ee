//! The record tree of a manifest part and its binary form.

use apache_avro::types::Value;
use vstd::prelude::*;

use crate::outcome::{fails, yields};

verus! {

/// A tree of Avro values, as far as manifest parts have them.
#[derive(Debug)]
pub enum Datum {
    Null,
    Int(i32),
    Long(i64),
    Text(String),
    Bytes(Vec<u8>),
    /// A value of a fixed size, with that size.
    Fixed(usize, Vec<u8>),
    Union(u32, Box<Datum>),
    Array(Vec<Datum>),
    Record(Vec<(String, Datum)>),
    /// A value of any other kind.
    Other,
}

#[verifier::ext_equal]
pub enum DatumView {
    Null,
    Int(i32),
    Long(i64),
    Text(Seq<char>),
    Bytes(Seq<u8>),
    Fixed(usize, Seq<u8>),
    Union(u32, Box<DatumView>),
    Array(Seq<DatumView>),
    Record(Seq<(Seq<char>, DatumView)>),
    Other,
}

/// The tree that a datum is.
pub open spec fn datum_view(d: Datum) -> DatumView
    decreases d,
{
    match d {
        Datum::Null => DatumView::Null,
        Datum::Int(n) => DatumView::Int(n),
        Datum::Long(n) => DatumView::Long(n),
        Datum::Text(s) => DatumView::Text(s@),
        Datum::Bytes(b) => DatumView::Bytes(b@),
        Datum::Fixed(n, b) => DatumView::Fixed(n, b@),
        Datum::Union(i, b) => DatumView::Union(i, Box::new(datum_view(*b))),
        Datum::Array(items) => DatumView::Array(
            Seq::new(
                items@.len(),
                |i: int|
                    if 0 <= i < items@.len() {
                        datum_view(items@[i])
                    } else {
                        DatumView::Null
                    },
            ),
        ),
        Datum::Record(fields) => DatumView::Record(
            Seq::new(
                fields@.len(),
                |i: int|
                    if 0 <= i < fields@.len() {
                        (fields@[i].0@, datum_view(fields@[i].1))
                    } else {
                        (Seq::empty(), DatumView::Null)
                    },
            ),
        ),
        Datum::Other => DatumView::Other,
    }
}

/// Avro's own tree of values.
#[verifier::external_type_specification]
#[verifier::external_body]
pub struct ExAvroValue(apache_avro::types::Value);

/// What an Avro value holds.
pub uninterp spec fn datum_of(v: apache_avro::types::Value) -> DatumView;

/// The Avro value that holds a datum: `apache_avro`'s `Value`, variant by
/// variant. A value of another kind stands as a boolean.
#[verifier::external_body]
fn to_value(d: Datum) -> (v: Value)
    ensures
        datum_of(v) == datum_view(d),
{
    match d {
        Datum::Null => Value::Null,
        Datum::Int(n) => Value::Int(n),
        Datum::Long(n) => Value::Long(n),
        Datum::Text(s) => Value::String(s),
        Datum::Bytes(b) => Value::Bytes(b),
        Datum::Fixed(n, b) => Value::Fixed(n, b),
        Datum::Union(i, b) => Value::Union(i, Box::new(to_value(*b))),
        Datum::Array(a) => Value::Array(a.into_iter().map(to_value).collect()),
        Datum::Record(r) => Value::Record(r.into_iter().map(|(k, d)| (k, to_value(d))).collect()),
        Datum::Other => Value::Boolean(false),
    }
}

/// The datum that an Avro value holds, variant by variant. The kinds that
/// manifest parts do not have stand as `Other`.
#[verifier::external_body]
fn from_value(v: Value) -> (d: Datum)
    ensures
        datum_view(d) == datum_of(v),
{
    match v {
        Value::Null => Datum::Null,
        Value::Int(n) => Datum::Int(n),
        Value::Long(n) => Datum::Long(n),
        Value::String(s) => Datum::Text(s),
        Value::Bytes(b) => Datum::Bytes(b),
        Value::Fixed(n, b) => Datum::Fixed(n, b),
        Value::Union(i, b) => Datum::Union(i, Box::new(from_value(*b))),
        Value::Array(a) => Datum::Array(a.into_iter().map(from_value).collect()),
        Value::Record(r) => Datum::Record(r.into_iter().map(|(k, v)| (k, from_value(v))).collect()),
        _ => Datum::Other,
    }
}

/// The schema of a manifest part.
pub const PART_SCHEMA: &'static str =
    "{\"type\": \"record\", \"name\": \"ManifestPart\", \"fields\": [\
    {\"name\": \"format_version\", \"type\": \"string\"},\
    {\"name\": \"part_id\", \"type\": \"string\"},\
    {\"name\": \"superfiles\", \"type\": {\"type\": \"array\", \"items\": {\
    \"type\": \"record\", \"name\": \"SuperfileEntry\", \"fields\": [\
    {\"name\": \"superfile_id\", \"type\": \"string\"},\
    {\"name\": \"uri\", \"type\": \"string\"},\
    {\"name\": \"n_docs\", \"type\": \"long\"},\
    {\"name\": \"id_min\", \"type\": {\"type\": \"fixed\", \"name\": \"IdMin\", \"size\": 16}},\
    {\"name\": \"id_max\", \"type\": {\"type\": \"fixed\", \"name\": \"IdMax\", \"size\": 16}},\
    {\"name\": \"partition_key\", \"type\": \"bytes\"},\
    {\"name\": \"partition_hint\", \"type\": [\"null\", \"int\"], \"default\": null},\
    {\"name\": \"scalar_stats\", \"type\": \"bytes\"},\
    {\"name\": \"fts_summary\", \"type\": \"bytes\"},\
    {\"name\": \"vector_summary\", \"type\": \"bytes\"}]}}}]}";

/// Fields of one superfile, as the schema has them.
pub open spec fn is_row(d: DatumView) -> bool {
    match d {
        DatumView::Record(f) => {
            &&& f.len() == 10
            &&& f[0].0 == "superfile_id"@ && f[0].1 is Text
            &&& f[1].0 == "uri"@ && f[1].1 is Text
            &&& f[2].0 == "n_docs"@ && f[2].1 is Long
            &&& f[3].0 == "id_min"@ && is_fixed(f[3].1)
            &&& f[4].0 == "id_max"@ && is_fixed(f[4].1)
            &&& f[5].0 == "partition_key"@ && f[5].1 is Bytes
            &&& f[6].0 == "partition_hint"@ && is_hint(f[6].1)
            &&& f[7].0 == "scalar_stats"@ && f[7].1 is Bytes
            &&& f[8].0 == "fts_summary"@ && f[8].1 is Bytes
            &&& f[9].0 == "vector_summary"@ && f[9].1 is Bytes
        },
        _ => false,
    }
}

/// Sixteen bytes.
pub open spec fn is_fixed(d: DatumView) -> bool {
    d matches DatumView::Fixed(n, b) && n == 16 && b.len() == 16
}

/// The union of null and int.
pub open spec fn is_hint(d: DatumView) -> bool {
    match d {
        DatumView::Union(i, b) => (i == 0 && *b is Null) || (i == 1 && *b is Int),
        _ => false,
    }
}

/// The tree of a manifest part, as the schema has it.
pub open spec fn is_part(d: DatumView) -> bool {
    match d {
        DatumView::Record(f) => {
            &&& f.len() == 3
            &&& f[0].0 == "format_version"@ && f[0].1 is Text
            &&& f[1].0 == "part_id"@ && f[1].1 is Text
            &&& f[2].0 == "superfiles"@
            &&& match f[2].1 {
                DatumView::Array(rows) => forall|i: int|
                    0 <= i < rows.len() ==> is_row(#[trigger] rows[i]),
                _ => false,
            }
        },
        _ => false,
    }
}

/// Texts and byte strings within a limit.
pub open spec fn leaf_readable(limit: usize, d: DatumView) -> bool {
    match d {
        DatumView::Text(s) => vstd::utf8::encode_utf8(s).len() <= limit,
        DatumView::Bytes(b) => b.len() <= limit,
        _ => true,
    }
}

/// Every field of a record is within a limit.
pub open spec fn fields_readable(limit: usize, d: DatumView) -> bool {
    match d {
        DatumView::Record(f) => forall|i: int|
            0 <= i < f.len() ==> leaf_readable(limit, (#[trigger] f[i]).1),
        _ => false,
    }
}

/// A part that `apache_avro` reads back where it allocates no more than `limit`
/// bytes for one item: every text and byte string is within the limit, and so
/// is the list of superfiles, at most 64 bytes each.
pub open spec fn part_readable(limit: usize, d: DatumView) -> bool {
    &&& fields_readable(limit, d)
    &&& match d->Record_0[2].1 {
        DatumView::Array(rows) => {
            &&& 64 * rows.len() <= limit
            &&& forall|i: int| 0 <= i < rows.len() ==> fields_readable(limit, #[trigger] rows[i])
        },
        _ => false,
    }
}

/// The bytes that `to_avro_datum` writes of a tree under the part schema.
pub uninterp spec fn avro_written(d: DatumView) -> Seq<u8>;

/// What `from_avro_datum` reads from bytes under the part schema, where it
/// allocates no more than `limit` bytes for one item: a tree, or the message of
/// its error.
pub uninterp spec fn avro_read(limit: usize, b: Seq<u8>) -> Result<DatumView, Seq<char>>;

/// `apache_avro::to_avro_datum` under the part schema: a tree that has the
/// form of the schema is written. `from_avro_datum` reads it back under every
/// limit that its items are within.
#[allow(deprecated)]
#[verifier::external_body]
fn write_value(v: Value) -> (r: Vec<u8>)
    requires
        is_part(datum_of(v)),
    ensures
        r@ == avro_written(datum_of(v)),
        forall|limit: usize|
            part_readable(limit, datum_of(v)) ==> yields(
                #[trigger] avro_read(limit, r@),
                datum_of(v),
            ),
{
    let schema = apache_avro::Schema::parse_str(PART_SCHEMA).expect("part schema parses");
    apache_avro::to_avro_datum(&schema, v).expect("avro datum encode")
}

/// `apache_avro::from_avro_datum` under the part schema: the tree that bytes
/// start with, or the message of the error. What it reads depends on the limit
/// on allocations that is in force, which `max_allocation_bytes` gives and which
/// does not change once it has been asked for. The limit comes first. A process
/// may set its own, so nothing is said of it.
#[allow(deprecated)]
#[verifier::external_body]
fn read_value(b: &[u8]) -> (r: (usize, Result<Value, String>))
    ensures
        match r.1 {
            Ok(v) => yields(avro_read(r.0, b@), datum_of(v)),
            Err(e) => fails(avro_read(r.0, b@), e@),
        },
{
    let default = apache_avro::util::DEFAULT_MAX_ALLOCATION_BYTES;
    let limit = apache_avro::util::max_allocation_bytes(default);
    let schema = apache_avro::Schema::parse_str(PART_SCHEMA).expect("part schema parses");
    let mut reader: &[u8] = b;
    let read = apache_avro::from_avro_datum(&schema, &mut reader, None);
    (limit, read.map_err(|e| e.to_string()))
}

/// The bytes of a part's tree.
pub fn write_datum(d: Datum) -> (r: Vec<u8>)
    requires
        is_part(datum_view(d)),
    ensures
        r@ == avro_written(datum_view(d)),
        forall|limit: usize|
            part_readable(limit, datum_view(d)) ==> yields(
                #[trigger] avro_read(limit, r@),
                datum_view(d),
            ),
{
    write_value(to_value(d))
}

/// The limit on allocations that is in force, and the tree that bytes hold, or
/// why they hold none.
pub fn read_datum(b: &[u8]) -> (r: (usize, Result<Datum, String>))
    ensures
        match r.1 {
            Ok(d) => yields(avro_read(r.0, b@), datum_view(d)),
            Err(e) => fails(avro_read(r.0, b@), e@),
        },
{
    let (limit, read) = read_value(b);
    match read {
        Ok(v) => (limit, Ok(from_value(v))),
        Err(e) => (limit, Err(e)),
    }
}

} // verus!
