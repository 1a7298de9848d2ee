//! Manifest parts: bounded lists of superfiles, stored under the hash of their
//! bytes.

use std::sync::Arc;
use vstd::prelude::*;

use crate::bytes::{be_bytes_i128, be_i128_round_trip, be_value_i128, i128_from_be, i128_to_be};
use crate::ids::{id_parsed, id_text, is_v4, parse_id, random_id, write_id};
use crate::lex::{bytes_copy, bytes_eq};
use crate::manifest::avro::{
    avro_read, avro_written, datum_view, is_row, part_readable, read_datum, write_datum, Datum,
    DatumView,
};
use crate::manifest::encoding::{
    map_bytes, map_parsed, map_round_trip, map_writable, read_map, write_map, DecodeError,
};
use crate::manifest::entry::{
    FtsSummary, SuperfileEntry, SuperfileEntryView, SuperfileUri, VectorSummary,
};
use crate::outcome::{fails, yields};
use crate::scalar::{Scalar, ScalarStatsTable};
use crate::text::{hex_text, push_hex, text_eq, text_is_cut_at, text_until, until};

verus! {

/// The version stamped into every part that is written.
pub const FORMAT_VERSION: &'static str = "1.0";

// ---------------------------------------------------------------- hashes

/// The BLAKE3 digest of a byte string.
pub uninterp spec fn blake3_digest(bytes: Seq<u8>) -> Seq<u8>;

/// `blake3::hash`: the 32 bytes of the digest.
#[verifier::external_body]
pub(crate) fn blake3_hash(bytes: &[u8]) -> (r: [u8; 32])
    ensures
        r@ == blake3_digest(bytes@),
{
    *blake3::hash(bytes).as_bytes()
}

/// The hash that names stored bytes.
#[derive(Clone, Copy, PartialEq, Eq, Hash, Debug)]
pub struct ContentHash(pub [u8; 32]);

impl View for ContentHash {
    type V = Seq<u8>;

    open spec fn view(&self) -> Seq<u8> {
        self.0@
    }
}

impl ContentHash {
    /// The hash of a byte string.
    pub fn of(bytes: &[u8]) -> (r: Self)
        ensures
            r@ == blake3_digest(bytes@),
    {
        ContentHash(blake3_hash(bytes))
    }

    /// The hash in lower-case hexadecimal.
    pub fn to_hex(&self) -> (r: String)
        ensures
            r@ == hex_text(self@),
    {
        let mut out = String::new();
        push_hex(&mut out, self.0.as_slice());
        proof {
            assert(out@ =~= hex_text(self@));
        }
        out
    }

    /// The hash with its scheme in front.
    pub fn to_text(&self) -> (r: String)
        ensures
            r@ == "blake3:"@ + hex_text(self@),
    {
        crate::error::joined("blake3:", self.to_hex().as_str())
    }

    /// Whether two hashes are the same.
    pub fn same(&self, other: &ContentHash) -> (r: bool)
        ensures
            r == (self@ == other@),
    {
        bytes_eq(self.0.as_slice(), other.0.as_slice())
    }
}

/// The identity of a part, which its contents do not determine.
#[derive(Clone, Copy, PartialEq, Eq, Structural, Hash, Debug)]
pub struct PartId(pub u128);

impl PartId {
    /// A fresh identity.
    pub fn new_v4() -> (r: Self)
        ensures
            is_v4(r.0),
    {
        PartId(random_id())
    }

    /// The identity as text.
    pub fn to_text(&self) -> (r: String)
        ensures
            r@ == id_text(self.0),
    {
        write_id(self.0)
    }
}

// ---------------------------------------------------------------- parts

/// A bounded list of superfiles.
#[derive(Debug)]
pub struct ManifestPart {
    pub format_version: String,
    pub part_id: PartId,
    pub superfiles: Vec<Arc<SuperfileEntry>>,
}

pub struct ManifestPartView {
    pub format_version: Seq<char>,
    pub part_id: PartId,
    pub superfiles: Seq<SuperfileEntryView>,
}

/// The superfiles of a list.
pub open spec fn entry_views(entries: Seq<Arc<SuperfileEntry>>) -> Seq<SuperfileEntryView> {
    Seq::new(entries.len(), |i: int| entries[i]@)
}

impl View for ManifestPart {
    type V = ManifestPartView;

    open spec fn view(&self) -> ManifestPartView {
        ManifestPartView {
            format_version: self.format_version@,
            part_id: self.part_id,
            superfiles: entry_views(self.superfiles@),
        }
    }
}

/// Why bytes are not a part.
#[derive(Debug)]
pub enum PartParseError {
    Zstd(String),
    Avro(String),
    SchemaMismatch(String),
    SummaryDecode(DecodeError),
    BadSuperfileId(String),
    IncompatibleMajorVersion { got: String, supported: String },
    MissingField(&'static str),
    WrongFieldType(&'static str),
}

pub enum PartParseErrorView {
    Zstd(Seq<char>),
    Avro(Seq<char>),
    SchemaMismatch(Seq<char>),
    SummaryDecode(DecodeError),
    BadSuperfileId(Seq<char>),
    IncompatibleMajorVersion { got: Seq<char>, supported: Seq<char> },
    MissingField(Seq<char>),
    WrongFieldType(Seq<char>),
}

impl View for PartParseError {
    type V = PartParseErrorView;

    open spec fn view(&self) -> PartParseErrorView {
        match *self {
            PartParseError::Zstd(s) => PartParseErrorView::Zstd(s@),
            PartParseError::Avro(s) => PartParseErrorView::Avro(s@),
            PartParseError::SchemaMismatch(s) => PartParseErrorView::SchemaMismatch(s@),
            PartParseError::SummaryDecode(e) => PartParseErrorView::SummaryDecode(e),
            PartParseError::BadSuperfileId(s) => PartParseErrorView::BadSuperfileId(s@),
            PartParseError::IncompatibleMajorVersion { got, supported } =>
                PartParseErrorView::IncompatibleMajorVersion { got: got@, supported: supported@ },
            PartParseError::MissingField(s) => PartParseErrorView::MissingField(s@),
            PartParseError::WrongFieldType(s) => PartParseErrorView::WrongFieldType(s@),
        }
    }
}

// ---------------------------------------------------------------- compression

/// What `zstd` compresses bytes to at a level.
pub uninterp spec fn zstd_encoded(bytes: Seq<u8>, level: i32) -> Seq<u8>;

/// What `zstd` decompresses bytes to: bytes, or the message of its error.
pub uninterp spec fn zstd_decoded(bytes: Seq<u8>) -> Result<Seq<u8>, Seq<char>>;

/// `zstd::stream::encode_all`: one frame of the bytes. Levels out of range are
/// brought into it. `decode_all` gives the bytes back.
#[verifier::external_body]
fn compress(bytes: &[u8], level: i32) -> (r: Vec<u8>)
    ensures
        r@ == zstd_encoded(bytes@, level),
        yields(zstd_decoded(r@), bytes@),
{
    zstd::stream::encode_all(bytes, level).expect("zstd encode")
}

/// `zstd::stream::decode_all`: the bytes of the frames, or the message of the
/// error.
#[verifier::external_body]
pub(crate) fn decompress(bytes: &[u8]) -> (r: Result<Vec<u8>, String>)
    ensures
        match r {
            Ok(b) => yields(zstd_decoded(bytes@), b@),
            Err(e) => fails(zstd_decoded(bytes@), e@),
        },
{
    zstd::stream::decode_all(bytes).map_err(|e| e.to_string())
}

// ---------------------------------------------------------------- writing

/// The signed number with the same 64 bits.
pub open spec fn docs_long(n: u64) -> i64 {
    if n <= i64::MAX {
        n as i64
    } else {
        (n - 0x1_0000_0000_0000_0000) as i64
    }
}

/// The unsigned number with the same 64 bits.
pub open spec fn long_docs(n: i64) -> u64 {
    if n >= 0 {
        n as u64
    } else {
        (n + 0x1_0000_0000_0000_0000) as u64
    }
}

/// The signed number with the same 32 bits.
pub open spec fn hint_int(n: u32) -> i32 {
    if n <= i32::MAX {
        n as i32
    } else {
        (n - 0x1_0000_0000) as i32
    }
}

/// The unsigned number with the same 32 bits.
pub open spec fn int_hint(n: i32) -> u32 {
    if n >= 0 {
        n as u32
    } else {
        (n + 0x1_0000_0000) as u32
    }
}

pub(crate) fn to_long(n: u64) -> (r: i64)
    ensures
        r == docs_long(n),
{
    if n <= 0x7fff_ffff_ffff_ffff {
        n as i64
    } else {
        (n as i128 - 0x1_0000_0000_0000_0000) as i64
    }
}

pub(crate) fn from_long(n: i64) -> (r: u64)
    ensures
        r == long_docs(n),
{
    if n >= 0 {
        n as u64
    } else {
        (n as i128 + 0x1_0000_0000_0000_0000) as u64
    }
}

fn to_int(n: u32) -> (r: i32)
    ensures
        r == hint_int(n),
{
    if n <= 0x7fff_ffff {
        n as i32
    } else {
        (n as i64 - 0x1_0000_0000) as i32
    }
}

fn from_int(n: i32) -> (r: u32)
    ensures
        r == int_hint(n),
{
    if n >= 0 {
        n as u32
    } else {
        (n as i64 + 0x1_0000_0000) as u32
    }
}

/// The value of a partition hint.
pub open spec fn hint_datum(hint: Option<u32>) -> DatumView {
    match hint {
        Some(b) => DatumView::Union(1, Box::new(DatumView::Int(hint_int(b)))),
        None => DatumView::Union(0, Box::new(DatumView::Null)),
    }
}

/// The record of a superfile.
pub open spec fn entry_datum(e: SuperfileEntryView) -> DatumView {
    DatumView::Record(
        seq![
            ("superfile_id"@, DatumView::Text(id_text(e.superfile_id))),
            ("uri"@, DatumView::Text(id_text(e.uri.0))),
            ("n_docs"@, DatumView::Long(docs_long(e.n_docs))),
            ("id_min"@, DatumView::Fixed(16, be_bytes_i128(e.id_min))),
            ("id_max"@, DatumView::Fixed(16, be_bytes_i128(e.id_max))),
            ("partition_key"@, DatumView::Bytes(e.partition_key)),
            ("partition_hint"@, hint_datum(e.partition_hint)),
            ("scalar_stats"@, DatumView::Bytes(map_bytes::<(Scalar, Scalar)>(e.scalar_stats))),
            ("fts_summary"@, DatumView::Bytes(map_bytes::<FtsSummary>(e.fts_summary))),
            ("vector_summary"@, DatumView::Bytes(map_bytes::<VectorSummary>(e.vector_summary))),
        ],
    )
}

/// The record of a part.
pub open spec fn part_datum(p: ManifestPartView) -> DatumView {
    DatumView::Record(
        seq![
            ("format_version"@, DatumView::Text(p.format_version)),
            ("part_id"@, DatumView::Text(id_text(p.part_id.0))),
            (
                "superfiles"@,
                DatumView::Array(
                    Seq::new(p.superfiles.len(), |i: int| entry_datum(p.superfiles[i])),
                ),
            ),
        ],
    )
}

/// The bytes of a part: its record in Avro's binary form, compressed.
pub open spec fn part_bytes(p: ManifestPartView, zstd_level: i32) -> Seq<u8> {
    zstd_encoded(avro_written(part_datum(p)), zstd_level)
}

fn named(name: &str, d: Datum) -> (r: (String, Datum))
    ensures
        r.0@ == name@,
        r.1 == d,
{
    (name.to_string(), d)
}

fn hint_value(hint: Option<u32>) -> (r: Datum)
    ensures
        datum_view(r) == hint_datum(hint),
{
    match hint {
        Some(b) => {
            let d = Datum::Int(to_int(b));
            assert(datum_view(d) == DatumView::Int(hint_int(b)));
            Datum::Union(1, Box::new(d))
        },
        None => {
            let d = Datum::Null;
            assert(datum_view(d) == DatumView::Null);
            Datum::Union(0, Box::new(d))
        },
    }
}

/// An entry whose record can be read back.
pub open spec fn entry_writable(e: SuperfileEntryView) -> bool {
    &&& id_parsed(id_text(e.superfile_id)) == Ok::<u128, Seq<char>>(e.superfile_id)
    &&& id_parsed(id_text(e.uri.0)) == Ok::<u128, Seq<char>>(e.uri.0)
    &&& map_writable::<(Scalar, Scalar)>(e.scalar_stats)
    &&& map_writable::<FtsSummary>(e.fts_summary)
    &&& map_writable::<VectorSummary>(e.vector_summary)
}

fn write_row(e: &SuperfileEntry) -> (r: Datum)
    ensures
        datum_view(r) == entry_datum(e@),
        is_row(datum_view(r)),
        entry_writable(e@),
{
    let id = write_id(e.superfile_id);
    let uri = write_id(e.uri.0);
    let stats = write_map::<(Scalar, Scalar)>(&e.scalar_stats.cols);
    let fts = write_map::<FtsSummary>(&e.fts_summary);
    let vectors = write_map::<VectorSummary>(&e.vector_summary);
    let id_min = i128_to_be(e.id_min);
    let id_max = i128_to_be(e.id_max);
    let mut f: Vec<(String, Datum)> = Vec::new();
    f.push(named("superfile_id", Datum::Text(id)));
    f.push(named("uri", Datum::Text(uri)));
    f.push(named("n_docs", Datum::Long(to_long(e.n_docs))));
    f.push(named("id_min", Datum::Fixed(16, id_min)));
    f.push(named("id_max", Datum::Fixed(16, id_max)));
    f.push(named("partition_key", Datum::Bytes(bytes_copy(e.partition_key.as_slice()))));
    f.push(named("partition_hint", hint_value(e.partition_hint)));
    f.push(named("scalar_stats", Datum::Bytes(stats)));
    f.push(named("fts_summary", Datum::Bytes(fts)));
    f.push(named("vector_summary", Datum::Bytes(vectors)));
    let r = Datum::Record(f);
    proof {
        let want = entry_datum(e@)->Record_0;
        let got = datum_view(r)->Record_0;
        assert(got.len() == 10);
        assert forall|i: int| 0 <= i < 10 implies got[i] == want[i] by {
            assert(got[i] == (f@[i].0@, datum_view(f@[i].1)));
        }
        assert(got =~= want);
    }
    r
}

/// Write a part. The last clause is what makes the bytes worth keeping: unless
/// something in the part is larger than Avro reads back, decoding gives the
/// part again.
pub fn encode(part: &ManifestPart, zstd_level: i32) -> (r: Vec<u8>)
    ensures
        r@ == part_bytes(part@, zstd_level),
        yields(zstd_decoded(r@), avro_written(part_datum(part@))),
        until(part.format_version@, '.') == until(FORMAT_VERSION@, '.') ==> reads_back(part@, r@),
{
    let mut rows: Vec<Datum> = Vec::new();
    let mut i: usize = 0;
    while i < part.superfiles.len()
        invariant
            i <= part.superfiles@.len(),
            rows@.len() == i,
            forall|k: int|
                0 <= k < i ==> datum_view(#[trigger] rows@[k]) == entry_datum(
                    part@.superfiles[k],
                ) && is_row(datum_view(rows@[k])) && entry_writable(part@.superfiles[k]),
        decreases part.superfiles@.len() - i,
    {
        let row = write_row(&part.superfiles[i]);
        proof {
            assert(part@.superfiles[i as int] == part.superfiles@[i as int]@);
        }
        rows.push(row);
        i = i + 1;
    }
    let id = write_id(part.part_id.0);
    let mut f: Vec<(String, Datum)> = Vec::new();
    f.push(named("format_version", Datum::Text(part.format_version.clone())));
    f.push(named("part_id", Datum::Text(id)));
    let array = Datum::Array(rows);
    let ghost array_view = datum_view(array);
    proof {
        let got = array_view->Array_0;
        let want = Seq::new(part@.superfiles.len(), |i: int| entry_datum(part@.superfiles[i]));
        assert forall|k: int| 0 <= k < want.len() implies got[k] == want[k] by {
            assert(got[k] == datum_view(rows@[k]));
        }
        assert(got =~= want);
        assert forall|k: int| 0 <= k < got.len() implies is_row(#[trigger] got[k]) by {
            assert(is_row(datum_view(rows@[k])));
        }
        assert forall|k: int| 0 <= k < part@.superfiles.len() implies entry_writable(
            #[trigger] part@.superfiles[k],
        ) by {
            assert(is_row(datum_view(rows@[k])));
        }
    }
    f.push(named("superfiles", array));
    let record = Datum::Record(f);
    proof {
        let want = part_datum(part@)->Record_0;
        let got = datum_view(record)->Record_0;
        assert(got.len() == 3);
        assert forall|i: int| 0 <= i < 3 implies got[i] == want[i] by {
            assert(got[i] == (f@[i].0@, datum_view(f@[i].1)));
        }
        assert(got =~= want);
    }
    let avro = write_datum(record);
    let r = compress(avro.as_slice(), zstd_level);
    proof {
        if until(part.format_version@, '.') == until(FORMAT_VERSION@, '.') {
            reveal(reads_back);
            lemma_part_round_trip(part@);
        }
    }
    r
}

// ---------------------------------------------------------------- reading

/// The value of a field: that of the last field of the name.
pub open spec fn field(fields: Seq<(Seq<char>, DatumView)>, name: Seq<char>) -> Option<DatumView>
    decreases fields.len(),
{
    if fields.len() == 0 {
        None
    } else if fields.last().0 == name {
        Some(fields.last().1)
    } else {
        field(fields.drop_last(), name)
    }
}

pub open spec fn text_field(fields: Seq<(Seq<char>, DatumView)>, name: Seq<char>) -> Result<
    Seq<char>,
    PartParseErrorView,
> {
    match field(fields, name) {
        None => Err(PartParseErrorView::MissingField(name)),
        Some(DatumView::Text(s)) => Ok(s),
        Some(_) => Err(PartParseErrorView::WrongFieldType(name)),
    }
}

pub open spec fn long_field(fields: Seq<(Seq<char>, DatumView)>, name: Seq<char>) -> Result<
    i64,
    PartParseErrorView,
> {
    match field(fields, name) {
        None => Err(PartParseErrorView::MissingField(name)),
        Some(DatumView::Long(n)) => Ok(n),
        Some(_) => Err(PartParseErrorView::WrongFieldType(name)),
    }
}

pub open spec fn bytes_field(fields: Seq<(Seq<char>, DatumView)>, name: Seq<char>) -> Result<
    Seq<u8>,
    PartParseErrorView,
> {
    match field(fields, name) {
        None => Err(PartParseErrorView::MissingField(name)),
        Some(DatumView::Bytes(b)) => Ok(b),
        Some(_) => Err(PartParseErrorView::WrongFieldType(name)),
    }
}

pub open spec fn i128_field(fields: Seq<(Seq<char>, DatumView)>, name: Seq<char>) -> Result<
    i128,
    PartParseErrorView,
> {
    match field(fields, name) {
        None => Err(PartParseErrorView::MissingField(name)),
        Some(DatumView::Fixed(_, b)) => if b.len() == 16 {
            Ok(be_value_i128(b))
        } else {
            Err(PartParseErrorView::WrongFieldType(name))
        },
        Some(_) => Err(PartParseErrorView::WrongFieldType(name)),
    }
}

/// An integer or null, in a union or by itself.
pub open spec fn optional_int(d: DatumView) -> Option<Option<i32>> {
    match d {
        DatumView::Null => Some(None),
        DatumView::Int(n) => Some(Some(n)),
        DatumView::Union(_, b) => match *b {
            DatumView::Null => Some(None),
            DatumView::Int(n) => Some(Some(n)),
            _ => None,
        },
        _ => None,
    }
}

pub open spec fn hint_field(fields: Seq<(Seq<char>, DatumView)>, name: Seq<char>) -> Result<
    Option<u32>,
    PartParseErrorView,
> {
    match field(fields, name) {
        None => Err(PartParseErrorView::MissingField(name)),
        Some(d) => match optional_int(d) {
            None => Err(PartParseErrorView::WrongFieldType(name)),
            Some(None) => Ok(None),
            Some(Some(n)) => Ok(Some(int_hint(n))),
        },
    }
}

pub open spec fn id_field(fields: Seq<(Seq<char>, DatumView)>, name: Seq<char>) -> Result<
    u128,
    PartParseErrorView,
> {
    match text_field(fields, name) {
        Err(e) => Err(e),
        Ok(s) => match id_parsed(s) {
            Err(m) => Err(PartParseErrorView::BadSuperfileId(m)),
            Ok(id) => Ok(id),
        },
    }
}

/// The plain fields of a superfile's record, in the order in which they are
/// read.
pub struct RowView {
    pub superfile_id: u128,
    pub uri: u128,
    pub n_docs: u64,
    pub id_min: i128,
    pub id_max: i128,
    pub partition_key: Seq<u8>,
    pub partition_hint: Option<u32>,
    pub scalar_stats: Seq<u8>,
    pub fts_summary: Seq<u8>,
    pub vector_summary: Seq<u8>,
}

/// The plain fields of a record, or the first fault among them.
pub open spec fn row_parsed(f: Seq<(Seq<char>, DatumView)>) -> Result<RowView, PartParseErrorView> {
    match (
        id_field(f, "superfile_id"@),
        id_field(f, "uri"@),
        long_field(f, "n_docs"@),
        i128_field(f, "id_min"@),
        i128_field(f, "id_max"@),
        bytes_field(f, "partition_key"@),
        hint_field(f, "partition_hint"@),
        bytes_field(f, "scalar_stats"@),
        bytes_field(f, "fts_summary"@),
        bytes_field(f, "vector_summary"@),
    ) {
        (Err(e), _, _, _, _, _, _, _, _, _) => Err(e),
        (_, Err(e), _, _, _, _, _, _, _, _) => Err(e),
        (_, _, Err(e), _, _, _, _, _, _, _) => Err(e),
        (_, _, _, Err(e), _, _, _, _, _, _) => Err(e),
        (_, _, _, _, Err(e), _, _, _, _, _) => Err(e),
        (_, _, _, _, _, Err(e), _, _, _, _) => Err(e),
        (_, _, _, _, _, _, Err(e), _, _, _) => Err(e),
        (_, _, _, _, _, _, _, Err(e), _, _) => Err(e),
        (_, _, _, _, _, _, _, _, Err(e), _) => Err(e),
        (_, _, _, _, _, _, _, _, _, Err(e)) => Err(e),
        (Ok(id), Ok(uri), Ok(n), Ok(lo), Ok(hi), Ok(key), Ok(hint), Ok(stats), Ok(fts), Ok(vec)) =>
            Ok(
                RowView {
                    superfile_id: id,
                    uri,
                    n_docs: long_docs(n),
                    id_min: lo,
                    id_max: hi,
                    partition_key: key,
                    partition_hint: hint,
                    scalar_stats: stats,
                    fts_summary: fts,
                    vector_summary: vec,
                },
            ),
    }
}

/// The superfile of a record.
pub open spec fn entry_parsed(d: DatumView) -> Result<SuperfileEntryView, PartParseErrorView> {
    match d {
        DatumView::Record(f) => match row_parsed(f) {
            Err(e) => Err(e),
            Ok(row) => match (
                map_parsed::<(Scalar, Scalar)>(row.scalar_stats),
                map_parsed::<FtsSummary>(row.fts_summary),
                map_parsed::<VectorSummary>(row.vector_summary),
            ) {
                (Err(e), _, _) => Err(PartParseErrorView::SummaryDecode(e)),
                (_, Err(e), _) => Err(PartParseErrorView::SummaryDecode(e)),
                (_, _, Err(e)) => Err(PartParseErrorView::SummaryDecode(e)),
                (Ok(stats), Ok(fts), Ok(vec)) => Ok(
                    SuperfileEntryView {
                        superfile_id: row.superfile_id,
                        uri: SuperfileUri(row.uri),
                        n_docs: row.n_docs,
                        id_min: row.id_min,
                        id_max: row.id_max,
                        scalar_stats: stats,
                        fts_summary: fts,
                        vector_summary: vec,
                        partition_key: row.partition_key,
                        partition_hint: row.partition_hint,
                    },
                ),
            },
        },
        _ => Err(PartParseErrorView::SchemaMismatch("segment not a record"@)),
    }
}

/// The superfiles of a list of records, or the first fault among them.
pub open spec fn entries_parsed(rows: Seq<DatumView>) -> Result<
    Seq<SuperfileEntryView>,
    PartParseErrorView,
>
    decreases rows.len(),
{
    if rows.len() == 0 {
        Ok(Seq::empty())
    } else {
        match entries_parsed(rows.drop_last()) {
            Err(e) => Err(e),
            Ok(head) => match entry_parsed(rows.last()) {
                Err(e) => Err(e),
                Ok(entry) => Ok(head.push(entry)),
            },
        }
    }
}

/// A version is read if its major number is the supported one.
pub open spec fn version_checked(got: Seq<char>) -> Result<(), PartParseErrorView> {
    if until(got, '.') == until(FORMAT_VERSION@, '.') {
        Ok(())
    } else {
        Err(PartParseErrorView::IncompatibleMajorVersion { got, supported: FORMAT_VERSION@ })
    }
}

/// The part of a record.
pub open spec fn part_parsed(d: DatumView) -> Result<ManifestPartView, PartParseErrorView> {
    match d {
        DatumView::Record(f) => match text_field(f, "format_version"@) {
            Err(e) => Err(e),
            Ok(version) => match version_checked(version) {
                Err(e) => Err(e),
                Ok(()) => match id_field(f, "part_id"@) {
                    Err(e) => Err(e),
                    Ok(id) => match field(f, "superfiles"@) {
                        None => Err(PartParseErrorView::MissingField("superfiles"@)),
                        Some(DatumView::Array(rows)) => match entries_parsed(rows) {
                            Err(e) => Err(e),
                            Ok(superfiles) => Ok(
                                ManifestPartView {
                                    format_version: version,
                                    part_id: PartId(id),
                                    superfiles,
                                },
                            ),
                        },
                        Some(_) => Err(PartParseErrorView::WrongFieldType("superfiles"@)),
                    },
                },
            },
        },
        _ => Err(PartParseErrorView::SchemaMismatch("top-level not a record"@)),
    }
}

/// The part that bytes hold, where Avro allocates no more than `limit` bytes for
/// one item.
pub open spec fn part_decoded(limit: usize, bytes: Seq<u8>) -> Result<
    ManifestPartView,
    PartParseErrorView,
> {
    match zstd_decoded(bytes) {
        Err(m) => Err(PartParseErrorView::Zstd(m)),
        Ok(avro) => match avro_read(limit, avro) {
            Err(m) => Err(PartParseErrorView::Avro(m)),
            Ok(d) => part_parsed(d),
        },
    }
}

/// That bytes hold a part under every limit that the part is within.
#[verifier::opaque]
pub open spec fn reads_back(part: ManifestPartView, bytes: Seq<u8>) -> bool {
    forall|limit: usize|
        part_readable(limit, part_datum(part)) ==> #[trigger] part_decoded(limit, bytes) == Ok::<
            ManifestPartView,
            PartParseErrorView,
        >(part)
}

/// That a result is what bytes hold under a limit.
pub open spec fn decoded_as(
    limit: usize,
    bytes: Seq<u8>,
    r: Result<ManifestPart, PartParseError>,
) -> bool {
    match r {
        Ok(p) => part_decoded(limit, bytes) == Ok::<ManifestPartView, PartParseErrorView>(p@),
        Err(e) => part_decoded(limit, bytes) == Err::<ManifestPartView, PartParseErrorView>(e@),
    }
}

fn find<'a>(fields: &'a Vec<(String, Datum)>, name: &str) -> (r: Option<&'a Datum>)
    ensures
        match r {
            Some(d) => field(datum_view(Datum::Record(*fields))->Record_0, name@) == Some(
                datum_view(*d),
            ),
            None => field(datum_view(Datum::Record(*fields))->Record_0, name@) is None,
        },
{
    let ghost v = datum_view(Datum::Record(*fields))->Record_0;
    let mut i: usize = fields.len();
    proof {
        assert(v.take(v.len() as int) =~= v);
    }
    while i > 0
        invariant
            i <= fields@.len(),
            v == datum_view(Datum::Record(*fields))->Record_0,
            v.len() == fields@.len(),
            field(v, name@) == field(v.take(i as int), name@),
        decreases i,
    {
        proof {
            assert(v[i as int - 1] == (fields@[i as int - 1].0@, datum_view(fields@[i as int - 1].1)));
            assert(v.take(i as int).drop_last() =~= v.take(i as int - 1));
        }
        i = i - 1;
        if text_eq(fields[i].0.as_str(), name) {
            return Some(&fields[i].1);
        }
    }
    None
}

/// The fields of a record.
pub open spec fn record_view(fields: Vec<(String, Datum)>) -> Seq<(Seq<char>, DatumView)> {
    datum_view(Datum::Record(fields))->Record_0
}

fn take_string(fields: &Vec<(String, Datum)>, name: &'static str) -> (r: Result<
    String,
    PartParseError,
>)
    ensures
        match r {
            Ok(s) => text_field(record_view(*fields), name@) == Ok::<Seq<char>, PartParseErrorView>(
                s@,
            ),
            Err(e) => text_field(record_view(*fields), name@) == Err::<
                Seq<char>,
                PartParseErrorView,
            >(e@),
        },
{
    match find(fields, name) {
        None => Err(PartParseError::MissingField(name)),
        Some(Datum::Text(s)) => Ok(s.clone()),
        Some(_) => Err(PartParseError::WrongFieldType(name)),
    }
}

fn take_long(fields: &Vec<(String, Datum)>, name: &'static str) -> (r: Result<i64, PartParseError>)
    ensures
        match r {
            Ok(n) => long_field(record_view(*fields), name@) == Ok::<i64, PartParseErrorView>(n),
            Err(e) => long_field(record_view(*fields), name@) == Err::<i64, PartParseErrorView>(e@),
        },
{
    match find(fields, name) {
        None => Err(PartParseError::MissingField(name)),
        Some(Datum::Long(n)) => Ok(*n),
        Some(_) => Err(PartParseError::WrongFieldType(name)),
    }
}

fn take_bytes(fields: &Vec<(String, Datum)>, name: &'static str) -> (r: Result<
    Vec<u8>,
    PartParseError,
>)
    ensures
        match r {
            Ok(b) => bytes_field(record_view(*fields), name@) == Ok::<Seq<u8>, PartParseErrorView>(
                b@,
            ),
            Err(e) => bytes_field(record_view(*fields), name@) == Err::<
                Seq<u8>,
                PartParseErrorView,
            >(e@),
        },
{
    match find(fields, name) {
        None => Err(PartParseError::MissingField(name)),
        Some(Datum::Bytes(b)) => Ok(bytes_copy(b.as_slice())),
        Some(_) => Err(PartParseError::WrongFieldType(name)),
    }
}

fn take_i128_be(fields: &Vec<(String, Datum)>, name: &'static str) -> (r: Result<
    i128,
    PartParseError,
>)
    ensures
        match r {
            Ok(n) => i128_field(record_view(*fields), name@) == Ok::<i128, PartParseErrorView>(n),
            Err(e) => i128_field(record_view(*fields), name@) == Err::<i128, PartParseErrorView>(
                e@,
            ),
        },
{
    match find(fields, name) {
        None => Err(PartParseError::MissingField(name)),
        Some(Datum::Fixed(_, b)) => {
            if b.len() == 16 {
                Ok(i128_from_be(b.as_slice()))
            } else {
                Err(PartParseError::WrongFieldType(name))
            }
        },
        Some(_) => Err(PartParseError::WrongFieldType(name)),
    }
}

fn int_or_null(d: &Datum) -> (r: Option<Option<i32>>)
    ensures
        r == optional_int(datum_view(*d)),
{
    match d {
        Datum::Null => Some(None),
        Datum::Int(n) => Some(Some(*n)),
        Datum::Union(_, b) => {
            assert(datum_view(*d)->Union_1 == Box::new(datum_view(**b)));
            match &**b {
                Datum::Null => Some(None),
                Datum::Int(n) => Some(Some(*n)),
                _ => None,
            }
        },
        _ => None,
    }
}

fn take_optional_int(fields: &Vec<(String, Datum)>, name: &'static str) -> (r: Result<
    Option<u32>,
    PartParseError,
>)
    ensures
        match r {
            Ok(h) => hint_field(record_view(*fields), name@) == Ok::<
                Option<u32>,
                PartParseErrorView,
            >(h),
            Err(e) => hint_field(record_view(*fields), name@) == Err::<
                Option<u32>,
                PartParseErrorView,
            >(e@),
        },
{
    match find(fields, name) {
        None => Err(PartParseError::MissingField(name)),
        Some(d) => match int_or_null(d) {
            None => Err(PartParseError::WrongFieldType(name)),
            Some(None) => Ok(None),
            Some(Some(n)) => Ok(Some(from_int(n))),
        },
    }
}

fn take_id(fields: &Vec<(String, Datum)>, name: &'static str) -> (r: Result<u128, PartParseError>)
    ensures
        match r {
            Ok(id) => id_field(record_view(*fields), name@) == Ok::<u128, PartParseErrorView>(id),
            Err(e) => id_field(record_view(*fields), name@) == Err::<u128, PartParseErrorView>(e@),
        },
{
    match take_string(fields, name) {
        Err(e) => Err(e),
        Ok(s) => match parse_id(s.as_str()) {
            Err(m) => Err(PartParseError::BadSuperfileId(m)),
            Ok(id) => Ok(id),
        },
    }
}

/// The plain fields of a superfile's record.
struct Row {
    superfile_id: u128,
    uri: u128,
    n_docs: u64,
    id_min: i128,
    id_max: i128,
    partition_key: Vec<u8>,
    partition_hint: Option<u32>,
    scalar_stats: Vec<u8>,
    fts_summary: Vec<u8>,
    vector_summary: Vec<u8>,
}

impl View for Row {
    type V = RowView;

    closed spec fn view(&self) -> RowView {
        RowView {
            superfile_id: self.superfile_id,
            uri: self.uri,
            n_docs: self.n_docs,
            id_min: self.id_min,
            id_max: self.id_max,
            partition_key: self.partition_key@,
            partition_hint: self.partition_hint,
            scalar_stats: self.scalar_stats@,
            fts_summary: self.fts_summary@,
            vector_summary: self.vector_summary@,
        }
    }
}

fn decode_row(f: &Vec<(String, Datum)>) -> (r: Result<Row, PartParseError>)
    ensures
        match r {
            Ok(row) => row_parsed(record_view(*f)) == Ok::<RowView, PartParseErrorView>(row@),
            Err(e) => row_parsed(record_view(*f)) == Err::<RowView, PartParseErrorView>(e@),
        },
{
    let superfile_id = match take_id(f, "superfile_id") {
        Ok(x) => x,
        Err(e) => return Err(e),
    };
    let uri = match take_id(f, "uri") {
        Ok(x) => x,
        Err(e) => return Err(e),
    };
    let n = match take_long(f, "n_docs") {
        Ok(x) => x,
        Err(e) => return Err(e),
    };
    let id_min = match take_i128_be(f, "id_min") {
        Ok(x) => x,
        Err(e) => return Err(e),
    };
    let id_max = match take_i128_be(f, "id_max") {
        Ok(x) => x,
        Err(e) => return Err(e),
    };
    let partition_key = match take_bytes(f, "partition_key") {
        Ok(x) => x,
        Err(e) => return Err(e),
    };
    let partition_hint = match take_optional_int(f, "partition_hint") {
        Ok(x) => x,
        Err(e) => return Err(e),
    };
    let scalar_stats = match take_bytes(f, "scalar_stats") {
        Ok(x) => x,
        Err(e) => return Err(e),
    };
    let fts_summary = match take_bytes(f, "fts_summary") {
        Ok(x) => x,
        Err(e) => return Err(e),
    };
    let vector_summary = match take_bytes(f, "vector_summary") {
        Ok(x) => x,
        Err(e) => return Err(e),
    };
    Ok(
        Row {
            superfile_id,
            uri,
            n_docs: from_long(n),
            id_min,
            id_max,
            partition_key,
            partition_hint,
            scalar_stats,
            fts_summary,
            vector_summary,
        },
    )
}

fn decode_segment(d: &Datum) -> (r: Result<SuperfileEntry, PartParseError>)
    ensures
        match r {
            Ok(e) => entry_parsed(datum_view(*d)) == Ok::<SuperfileEntryView, PartParseErrorView>(
                e@,
            ),
            Err(e) => entry_parsed(datum_view(*d)) == Err::<SuperfileEntryView, PartParseErrorView>(
                e@,
            ),
        },
{
    let f = match d {
        Datum::Record(f) => f,
        _ => return Err(PartParseError::SchemaMismatch("segment not a record".to_string())),
    };
    assert(record_view(*f) == datum_view(*d)->Record_0);
    let row = match decode_row(f) {
        Ok(row) => row,
        Err(e) => return Err(e),
    };
    let cols = match read_map::<(Scalar, Scalar)>(row.scalar_stats.as_slice()) {
        Ok(m) => m,
        Err(e) => return Err(PartParseError::SummaryDecode(e)),
    };
    let fts_summary = match read_map::<FtsSummary>(row.fts_summary.as_slice()) {
        Ok(m) => m,
        Err(e) => return Err(PartParseError::SummaryDecode(e)),
    };
    let vector_summary = match read_map::<VectorSummary>(row.vector_summary.as_slice()) {
        Ok(m) => m,
        Err(e) => return Err(PartParseError::SummaryDecode(e)),
    };
    Ok(
        SuperfileEntry {
            superfile_id: row.superfile_id,
            uri: SuperfileUri(row.uri),
            n_docs: row.n_docs,
            id_min: row.id_min,
            id_max: row.id_max,
            scalar_stats: ScalarStatsTable { cols },
            fts_summary,
            vector_summary,
            partition_key: row.partition_key,
            partition_hint: row.partition_hint,
        },
    )
}

fn check_major(fv: &str) -> (r: Result<(), PartParseError>)
    ensures
        match r {
            Ok(()) => version_checked(fv@) == Ok::<(), PartParseErrorView>(()),
            Err(e) => version_checked(fv@) == Err::<(), PartParseErrorView>(e@),
        },
{
    let supported = text_until(FORMAT_VERSION, '.');
    let got = text_until(fv, '.');
    if got != supported {
        return Err(
            PartParseError::IncompatibleMajorVersion {
                got: fv.to_string(),
                supported: FORMAT_VERSION.to_string(),
            },
        );
    }
    Ok(())
}

proof fn lemma_entries_error(rows: Seq<DatumView>, n: int)
    requires
        0 <= n <= rows.len(),
        entries_parsed(rows.take(n)) is Err,
    ensures
        entries_parsed(rows) == entries_parsed(rows.take(n)),
    decreases rows.len() - n,
{
    if n < rows.len() {
        assert(rows.take(n + 1).drop_last() =~= rows.take(n));
        lemma_entries_error(rows, n + 1);
    } else {
        assert(rows.take(n) =~= rows);
    }
}

fn decode_segments(rows: &Vec<Datum>) -> (r: Result<Vec<Arc<SuperfileEntry>>, PartParseError>)
    ensures
        match r {
            Ok(entries) => entries_parsed(datum_view(Datum::Array(*rows))->Array_0) == Ok::<
                Seq<SuperfileEntryView>,
                PartParseErrorView,
            >(entry_views(entries@)),
            Err(e) => entries_parsed(datum_view(Datum::Array(*rows))->Array_0) == Err::<
                Seq<SuperfileEntryView>,
                PartParseErrorView,
            >(e@),
        },
{
    let ghost v = datum_view(Datum::Array(*rows))->Array_0;
    let mut entries: Vec<Arc<SuperfileEntry>> = Vec::new();
    let mut i: usize = 0;
    proof {
        assert(v.take(0) =~= Seq::empty());
        assert(entry_views(entries@) =~= Seq::empty());
    }
    while i < rows.len()
        invariant
            i <= rows@.len(),
            v == datum_view(Datum::Array(*rows))->Array_0,
            v.len() == rows@.len(),
            entries_parsed(v.take(i as int)) == Ok::<Seq<SuperfileEntryView>, PartParseErrorView>(
                entry_views(entries@),
            ),
        decreases rows@.len() - i,
    {
        proof {
            assert(v[i as int] == datum_view(rows@[i as int]));
            assert(v.take(i as int + 1).drop_last() =~= v.take(i as int));
        }
        match decode_segment(&rows[i]) {
            Err(e) => {
                proof {
                    lemma_entries_error(v, i as int + 1);
                }
                return Err(e);
            },
            Ok(entry) => {
                let ghost before = entries@;
                entries.push(Arc::new(entry));
                proof {
                    assert(entry_views(entries@) =~= entry_views(before).push(entry@));
                }
            },
        }
        i = i + 1;
    }
    proof {
        assert(v.take(i as int) =~= v);
    }
    Ok(entries)
}

/// The part that an Avro value holds, or what is wrong with it.
pub fn parse_part(d: &Datum) -> (r: Result<ManifestPart, PartParseError>)
    ensures
        match r {
            Ok(p) => part_parsed(datum_view(*d)) == Ok::<ManifestPartView, PartParseErrorView>(p@),
            Err(e) => part_parsed(datum_view(*d)) == Err::<ManifestPartView, PartParseErrorView>(
                e@,
            ),
        },
{
    let f = match d {
        Datum::Record(f) => f,
        _ => return Err(PartParseError::SchemaMismatch("top-level not a record".to_string())),
    };
    assert(record_view(*f) == datum_view(*d)->Record_0);
    let format_version = match take_string(f, "format_version") {
        Ok(x) => x,
        Err(e) => return Err(e),
    };
    match check_major(format_version.as_str()) {
        Ok(()) => {},
        Err(e) => return Err(e),
    }
    let part_id = match take_id(f, "part_id") {
        Ok(x) => PartId(x),
        Err(e) => return Err(e),
    };
    match find(f, "superfiles") {
        None => Err(PartParseError::MissingField("superfiles")),
        Some(Datum::Array(rows)) => match decode_segments(rows) {
            Err(e) => Err(e),
            Ok(superfiles) => Ok(ManifestPart { format_version, part_id, superfiles }),
        },
        Some(_) => Err(PartParseError::WrongFieldType("superfiles")),
    }
}

/// Read a part, and say which limit on Avro's allocations was in force; zero
/// where it came to no reading of Avro.
pub fn decode_within(bytes: &[u8]) -> (r: (usize, Result<ManifestPart, PartParseError>))
    ensures
        decoded_as(r.0, bytes@, r.1),
{
    let avro = match decompress(bytes) {
        Ok(b) => b,
        Err(m) => return (0, Err(PartParseError::Zstd(m))),
    };
    let (limit, read) = read_datum(avro.as_slice());
    match read {
        Err(m) => (limit, Err(PartParseError::Avro(m))),
        Ok(d) => (limit, parse_part(&d)),
    }
}

/// Read a part.
pub fn decode(bytes: &[u8]) -> (r: Result<ManifestPart, PartParseError>)
    ensures
        exists|limit: usize| #[trigger] decoded_as(limit, bytes@, r),
{
    let (limit, r) = decode_within(bytes);
    assert(decoded_as(limit, bytes@, r));
    r
}

// ---------------------------------------------------------------- laws

proof fn lemma_field_at(f: Seq<(Seq<char>, DatumView)>, name: Seq<char>, i: int)
    requires
        0 <= i < f.len(),
        f[i].0 == name,
        forall|j: int| i < j < f.len() ==> (#[trigger] f[j]).0 != name,
    ensures
        field(f, name) == Some(f[i].1),
    decreases f.len(),
{
    if i < f.len() - 1 {
        assert(f.last() == f[f.len() - 1]);
        assert forall|j: int| i < j < f.drop_last().len() implies (#[trigger] f.drop_last()[j]).0
            != name by {
            assert(f.drop_last()[j] == f[j]);
        }
        lemma_field_at(f.drop_last(), name, i);
    }
}

/// The names of the fields of a superfile's record.
spec fn row_names() -> Seq<Seq<char>> {
    seq![
        "superfile_id"@,
        "uri"@,
        "n_docs"@,
        "id_min"@,
        "id_max"@,
        "partition_key"@,
        "partition_hint"@,
        "scalar_stats"@,
        "fts_summary"@,
        "vector_summary"@,
    ]
}

proof fn lemma_row_names()
    ensures
        forall|i: int, j: int|
            0 <= i < j < 10 ==> #[trigger] row_names()[i] != #[trigger] row_names()[j],
{
    let n = row_names();
    reveal_strlit("superfile_id");
    reveal_strlit("uri");
    reveal_strlit("n_docs");
    reveal_strlit("id_min");
    reveal_strlit("id_max");
    reveal_strlit("partition_key");
    reveal_strlit("partition_hint");
    reveal_strlit("scalar_stats");
    reveal_strlit("fts_summary");
    reveal_strlit("vector_summary");
    assert(n[0].len() == 12 && n[0][1] == 'u');
    assert(n[1].len() == 3);
    assert(n[2].len() == 6 && n[2][0] == 'n');
    assert(n[3].len() == 6 && n[3][0] == 'i' && n[3][4] == 'i');
    assert(n[4].len() == 6 && n[4][0] == 'i' && n[4][4] == 'a');
    assert(n[5].len() == 13);
    assert(n[6].len() == 14 && n[6][0] == 'p');
    assert(n[7].len() == 12 && n[7][1] == 'c');
    assert(n[8].len() == 11);
    assert(n[9].len() == 14 && n[9][0] == 'v');
}

proof fn lemma_row_field(e: SuperfileEntryView, i: int)
    requires
        0 <= i < 10,
    ensures
        field(entry_datum(e)->Record_0, row_names()[i]) == Some(entry_datum(e)->Record_0[i].1),
{
    let f = entry_datum(e)->Record_0;
    lemma_row_names();
    assert(f.len() == 10);
    assert(forall|j: int| 0 <= j < 10 ==> (#[trigger] f[j]).0 == row_names()[j]);
    lemma_field_at(f, row_names()[i], i);
}

/// The record of a superfile reads back as the superfile.
proof fn lemma_entry_round_trip(e: SuperfileEntryView)
    requires
        entry_writable(e),
    ensures
        entry_parsed(entry_datum(e)) == Ok::<SuperfileEntryView, PartParseErrorView>(e),
{
    lemma_row_field(e, 0);
    lemma_row_field(e, 1);
    lemma_row_field(e, 2);
    lemma_row_field(e, 3);
    lemma_row_field(e, 4);
    lemma_row_field(e, 5);
    lemma_row_field(e, 6);
    lemma_row_field(e, 7);
    lemma_row_field(e, 8);
    lemma_row_field(e, 9);
    be_i128_round_trip(e.id_min);
    be_i128_round_trip(e.id_max);
    map_round_trip::<(Scalar, Scalar)>(e.scalar_stats);
    map_round_trip::<FtsSummary>(e.fts_summary);
    map_round_trip::<VectorSummary>(e.vector_summary);
    assert(long_docs(docs_long(e.n_docs)) == e.n_docs);
    match e.partition_hint {
        Some(h) => {
            assert(int_hint(hint_int(h)) == h);
        },
        None => {},
    }
}

proof fn lemma_entries_round_trip(s: Seq<SuperfileEntryView>)
    requires
        forall|i: int| 0 <= i < s.len() ==> entry_writable(#[trigger] s[i]),
    ensures
        entries_parsed(Seq::new(s.len(), |i: int| entry_datum(s[i]))) == Ok::<
            Seq<SuperfileEntryView>,
            PartParseErrorView,
        >(s),
    decreases s.len(),
{
    let rows = Seq::new(s.len(), |i: int| entry_datum(s[i]));
    if s.len() == 0 {
        assert(s =~= Seq::empty());
    } else {
        let t = s.drop_last();
        assert forall|i: int| 0 <= i < t.len() implies entry_writable(#[trigger] t[i]) by {
            assert(t[i] == s[i]);
        }
        lemma_entries_round_trip(t);
        assert(rows.drop_last() =~= Seq::new(t.len(), |i: int| entry_datum(t[i])));
        lemma_entry_round_trip(s.last());
        assert(t.push(s.last()) =~= s);
    }
}

/// The record of a part reads back as the part.
proof fn lemma_part_round_trip(p: ManifestPartView)
    requires
        id_parsed(id_text(p.part_id.0)) == Ok::<u128, Seq<char>>(p.part_id.0),
        forall|i: int| 0 <= i < p.superfiles.len() ==> entry_writable(#[trigger] p.superfiles[i]),
        until(p.format_version, '.') == until(FORMAT_VERSION@, '.'),
    ensures
        part_parsed(part_datum(p)) == Ok::<ManifestPartView, PartParseErrorView>(p),
{
    let f = part_datum(p)->Record_0;
    assert("format_version"@.len() == 14) by {
        reveal_strlit("format_version");
    }
    assert("part_id"@.len() == 7) by {
        reveal_strlit("part_id");
    }
    assert("superfiles"@.len() == 10) by {
        reveal_strlit("superfiles");
    }
    assert(f.len() == 3);
    assert(f[0].0 == "format_version"@ && f[1].0 == "part_id"@ && f[2].0 == "superfiles"@);
    lemma_field_at(f, f[0].0, 0);
    lemma_field_at(f, f[1].0, 1);
    lemma_field_at(f, f[2].0, 2);
    lemma_entries_round_trip(p.superfiles);
}

// ---------------------------------------------------------------- laws

/// A field is found by its name: the last one that has it, and none where none
/// has it.
pub proof fn fields_are_found_by_name(f: Seq<(Seq<char>, DatumView)>, name: Seq<char>)
    ensures
        field(f, name) is None <==> (forall|i: int| 0 <= i < f.len() ==> (#[trigger] f[i]).0 != name),
        field(f, name) matches Some(d) ==> exists|i: int|
            #![trigger f[i]]
            0 <= i < f.len() && f[i].0 == name && f[i].1 == d && (forall|j: int|
                i < j < f.len() ==> (#[trigger] f[j]).0 != name),
    decreases f.len(),
{
    if f.len() > 0 {
        let last = f.len() - 1;
        let rest = f.drop_last();
        assert(f[last] == f.last());
        if f.last().0 != name {
            fields_are_found_by_name(rest, name);
            if field(rest, name) is Some {
                let i = choose|i: int|
                    #![trigger rest[i]]
                    0 <= i < rest.len() && rest[i].0 == name && rest[i].1 == field(rest, name)->0
                        && (forall|j: int| i < j < rest.len() ==> (#[trigger] rest[j]).0 != name);
                assert(f[i] == rest[i]);
                assert forall|j: int| i < j < f.len() implies (#[trigger] f[j]).0 != name by {
                    if j < last {
                        assert(f[j] == rest[j]);
                    }
                }
            } else {
                assert forall|i: int| 0 <= i < f.len() implies (#[trigger] f[i]).0 != name by {
                    if i < last {
                        assert(f[i] == rest[i]);
                    }
                }
            }
        }
    }
}

/// Counts and hints are written as the signed numbers of the same bits, and
/// read back from them.
pub proof fn numbers_keep_their_bits(docs: u64, long: i64, hint: u32, stored: i32)
    ensures
        (docs_long(docs) - docs) % 0x1_0000_0000_0000_0000int == 0,
        long_docs(docs_long(docs)) == docs,
        docs_long(long_docs(long)) == long,
        (hint_int(hint) - hint) % 0x1_0000_0000int == 0,
        int_hint(hint_int(hint)) == hint,
        hint_int(int_hint(stored)) == stored,
{
}

/// The first number of a version decides whether a part is read: it is to be
/// one, whatever follows it.
pub proof fn parts_of_the_first_version_are_read(major: Seq<char>, rest: Seq<char>)
    requires
        !major.contains('.'),
    ensures
        version_checked(major + seq!['.'] + rest) is Ok <==> major == seq!['1'],
        version_checked(major) is Ok <==> major == seq!['1'],
{
    reveal_strlit("1.0");
    assert("1.0"@ =~= seq!['1'] + seq!['.'] + seq!['0']);
    assert(!seq!['1'].contains('.'));
    text_is_cut_at(seq!['1'], '.', seq!['0']);
    text_is_cut_at(major, '.', rest);
}

/// The records of two lists, one behind the other, hold the superfiles of the
/// first and then those of the second; of several faults the first is told.
pub proof fn records_are_read_in_order(a: Seq<DatumView>, b: Seq<DatumView>)
    ensures
        match (entries_parsed(a), entries_parsed(b)) {
            (Err(e), _) => entries_parsed(a + b) == Err::<
                Seq<SuperfileEntryView>,
                PartParseErrorView,
            >(e),
            (_, Err(e)) => entries_parsed(a + b) == Err::<
                Seq<SuperfileEntryView>,
                PartParseErrorView,
            >(e),
            (Ok(x), Ok(y)) => entries_parsed(a + b) == Ok::<
                Seq<SuperfileEntryView>,
                PartParseErrorView,
            >(x + y),
        },
    decreases b.len(),
{
    if b.len() == 0 {
        assert(a + b =~= a);
        if entries_parsed(a) is Ok {
            let x = entries_parsed(a)->Ok_0;
            assert(x + Seq::<SuperfileEntryView>::empty() =~= x);
        }
    } else {
        records_are_read_in_order(a, b.drop_last());
        assert((a + b).drop_last() =~= a + b.drop_last());
        assert((a + b).last() == b.last());
        let one = entry_parsed(b.last());
        if entries_parsed(a) is Ok && entries_parsed(b.drop_last()) is Ok && one is Ok {
            let x = entries_parsed(a)->Ok_0;
            let y = entries_parsed(b.drop_last())->Ok_0;
            assert((x + y).push(one->Ok_0) =~= x + y.push(one->Ok_0));
        }
    }
}

/// A list of one record holds its superfile, or has its fault.
pub proof fn one_record_is_one_superfile(d: DatumView)
    ensures
        match entry_parsed(d) {
            Ok(v) => entries_parsed(seq![d]) == Ok::<Seq<SuperfileEntryView>, PartParseErrorView>(
                seq![v],
            ),
            Err(e) => entries_parsed(seq![d]) == Err::<
                Seq<SuperfileEntryView>,
                PartParseErrorView,
            >(e),
        },
{
    let one = entry_parsed(d);
    assert(seq![d].drop_last() =~= Seq::empty());
    assert(entries_parsed(Seq::empty()) == Ok::<Seq<SuperfileEntryView>, PartParseErrorView>(
        Seq::empty(),
    ));
    if one is Ok {
        assert(Seq::empty().push(one->Ok_0) =~= seq![one->Ok_0]);
    }
}

} // verus!
