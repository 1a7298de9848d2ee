//! The manifest list as plain texts and numbers, ready for JSON.

use vstd::prelude::*;
use vstd::utf8::encode_utf8;

use crate::b64::{base64_decode, base64_decoded, base64_encode, base64_text};
use crate::column_map::{ascending, key_lt, lemma_insert_last, ColumnMap};
use crate::ids::{id_parsed, id_text, parse_id, write_id};
use crate::manifest::list::{
    byte_strings, fts_views, part_views, texts, vector_views, FtsColumnInfo, FtsSummaryAgg,
    FtsSummaryAggView, ListParseError, ListParseErrorView, ManifestList, ManifestListEntry,
    ManifestListEntryView, ManifestListView, PartitionStrategy, PartitionStrategyView,
    ScalarStatsAgg, ScalarStatsAggView, VectorColumnInfo, VectorColumnInfoView, VectorSummaryAgg,
    VectorSummaryAggView, FORMAT_VERSION,
};
use crate::manifest::part::{ContentHash, PartId};
use crate::text::{
    chars_of, hex_digit_value, hex_pair_value, hex_parsed, hex_text, hex_text_round_trip,
    i128_parsed, i128_text_round_trip, int_text, parse_hex, parse_i128, push_int, text_is_cut_at,
    text_until, until,
};

verus! {

// ---------------------------------------------------------------- hashes

/// The text of a hash.
pub open spec fn hash_text(h: Seq<u8>) -> Seq<char> {
    "blake3:"@ + hex_text(h)
}

/// The hash of a text: the scheme and 64 hexadecimal digits.
pub open spec fn hash_parsed(s: Seq<char>) -> Result<Seq<u8>, ListParseErrorView> {
    let rest = s.skip("blake3:"@.len() as int);
    if "blake3:"@.len() <= s.len() && s.take("blake3:"@.len() as int) == "blake3:"@ && rest.len()
        == 64 && hex_parsed(rest) is Some {
        Ok(hex_parsed(rest)->0)
    } else {
        Err(ListParseErrorView::BadContentHash(s))
    }
}

/// The text of a hash reads back as the hash.
pub proof fn hash_text_round_trip(h: Seq<u8>)
    requires
        h.len() == 32,
    ensures
        hash_parsed(hash_text(h)) == Ok::<Seq<u8>, ListParseErrorView>(h),
{
    hex_text_round_trip(h);
    let n = "blake3:"@.len() as int;
    assert(hash_text(h).take(n) =~= "blake3:"@);
    assert(hash_text(h).skip(n) =~= hex_text(h));
}

/// A text without the scheme, or with other than 64 bytes behind it, or with a
/// character behind it that is no hexadecimal digit, is the text of no hash.
pub proof fn other_texts_are_no_hashes(s: Seq<char>)
    requires
        !("blake3:"@.len() <= s.len() && s.take("blake3:"@.len() as int) == "blake3:"@)
            || encode_utf8(s.skip("blake3:"@.len() as int)).len() != 64 || exists|i: int|
            "blake3:"@.len() <= i < s.len() && hex_digit_value(#[trigger] s[i]) is None,
    ensures
        hash_parsed(s) == Err::<Seq<u8>, ListParseErrorView>(ListParseErrorView::BadContentHash(s)),
{
    let n = "blake3:"@.len() as int;
    let rest = s.skip(n);
    if hash_parsed(s) is Ok {
        assert forall|i: int| 0 <= i < rest.len() implies '\0' <= #[trigger] rest[i] <= '\u{7f}'
            && hex_digit_value(rest[i]) is Some by {
            let k = i / 2;
            assert(hex_pair_value(rest[2 * k], rest[2 * k + 1]) is Some);
            assert(i == 2 * k || i == 2 * k + 1);
        }
        vstd::utf8::is_ascii_chars_encode_utf8(rest);
        assert forall|i: int| n <= i < s.len() implies hex_digit_value(#[trigger] s[i]) is Some by {
            assert(s[i] == rest[i - n]);
        }
    }
}

/// The hash of 32 bytes.
pub(crate) fn hash_of_bytes(bytes: &[u8]) -> (r: ContentHash)
    requires
        bytes@.len() == 32,
    ensures
        r@ == bytes@,
{
    let mut out: [u8; 32] = [0u8; 32];
    let mut i: usize = 0;
    while i < 32
        invariant
            i <= 32,
            bytes@.len() == 32,
            forall|k: int| 0 <= k < i ==> out@[k] == bytes@[k],
        decreases 32 - i,
    {
        out[i] = bytes[i];
        i = i + 1;
    }
    assert(out@ =~= bytes@);
    ContentHash(out)
}

fn starts_with_scheme(s: &Vec<char>, scheme: &Vec<char>) -> (r: bool)
    ensures
        r == (scheme@.len() <= s@.len() && s@.take(scheme@.len() as int) == scheme@),
{
    if scheme.len() > s.len() {
        return false;
    }
    let mut i: usize = 0;
    while i < scheme.len()
        invariant
            i <= scheme@.len() <= s@.len(),
            forall|k: int| 0 <= k < i ==> s@[k] == scheme@[k],
        decreases scheme@.len() - i,
    {
        if s[i] != scheme[i] {
            assert(s@.take(scheme@.len() as int)[i as int] != scheme@[i as int]);
            return false;
        }
        i = i + 1;
    }
    assert(s@.take(scheme@.len() as int) =~= scheme@);
    true
}

/// The text of a hash.
pub fn encode_hash(h: &ContentHash) -> (r: String)
    ensures
        r@ == hash_text(h@),
        hash_parsed(r@) == Ok::<Seq<u8>, ListParseErrorView>(h@),
{
    proof {
        hash_text_round_trip(h@);
    }
    h.to_text()
}

/// The hash of a text.
pub fn decode_hash(s: &str) -> (r: Result<ContentHash, ListParseError>)
    ensures
        match r {
            Ok(h) => hash_parsed(s@) == Ok::<Seq<u8>, ListParseErrorView>(h@),
            Err(e) => hash_parsed(s@) == Err::<Seq<u8>, ListParseErrorView>(e@),
        },
{
    let chars = chars_of(s);
    let scheme = chars_of("blake3:");
    let n: usize = scheme.len();
    if !starts_with_scheme(&chars, &scheme) || chars.len() - n != 64 {
        return Err(ListParseError::BadContentHash(s.to_string()));
    }
    let rest = vstd::slice::slice_subrange(chars.as_slice(), n, chars.len());
    assert(rest@ =~= s@.skip(n as int));
    match parse_hex(rest) {
        Some(bytes) => Ok(hash_of_bytes(bytes.as_slice())),
        None => Err(ListParseError::BadContentHash(s.to_string())),
    }
}

// ---------------------------------------------------------------- base64

/// The bytes of a base64 field.
pub open spec fn b64_parsed(s: Seq<char>, name: Seq<char>) -> Result<Seq<u8>, ListParseErrorView> {
    match base64_decoded(s) {
        Ok(b) => Ok(b),
        Err(detail) => Err(ListParseErrorView::Base64 { field: name, detail }),
    }
}

fn decode_b64(s: &str, field: &'static str) -> (r: Result<Vec<u8>, ListParseError>)
    ensures
        match r {
            Ok(b) => b64_parsed(s@, field@) == Ok::<Seq<u8>, ListParseErrorView>(b@),
            Err(e) => b64_parsed(s@, field@) == Err::<Seq<u8>, ListParseErrorView>(e@),
        },
{
    match base64_decode(s) {
        Ok(b) => Ok(b),
        Err(detail) => Err(ListParseError::Base64 { field, detail }),
    }
}

// ---------------------------------------------------------------- columns

/// What a column map of the list holds, and the plain form of it.
pub trait Wire: View + Sized {
    type Dto: View;

    /// The plain form.
    spec fn plain(v: Self::V) -> <Self::Dto as View>::V;

    /// The value of a plain form.
    spec fn parsed(d: <Self::Dto as View>::V) -> Result<Self::V, ListParseErrorView>;

    fn to_dto(&self) -> (r: Self::Dto)
        ensures
            r@ == Self::plain(self@),
            Self::parsed(r@) == Ok::<Self::V, ListParseErrorView>(self@),
    ;

    fn from_dto(d: &Self::Dto) -> (r: Result<Self, ListParseError>)
        ensures
            match r {
                Ok(v) => Self::parsed(d@) == Ok::<Self::V, ListParseErrorView>(v@),
                Err(e) => Self::parsed(d@) == Err::<Self::V, ListParseErrorView>(e@),
            },
    ;
}

/// The plain form of a column map.
pub open spec fn columns_plain<T: Wire>(s: Seq<(Seq<char>, T::V)>) -> Seq<
    (Seq<char>, <T::Dto as View>::V),
> {
    Seq::new(s.len(), |i: int| (s[i].0, T::plain(s[i].1)))
}

/// The column map of a plain form, or the first fault in it.
pub open spec fn columns_parsed<T: Wire>(s: Seq<(Seq<char>, <T::Dto as View>::V)>) -> Result<
    Seq<(Seq<char>, T::V)>,
    ListParseErrorView,
>
    decreases s.len(),
{
    if s.len() == 0 {
        Ok(Seq::empty())
    } else {
        match columns_parsed::<T>(s.drop_last()) {
            Err(e) => Err(e),
            Ok(head) => match T::parsed(s.last().1) {
                Err(e) => Err(e),
                Ok(v) => Ok(head.push((s.last().0, v))),
            },
        }
    }
}

proof fn lemma_columns_error<T: Wire>(s: Seq<(Seq<char>, <T::Dto as View>::V)>, n: int)
    requires
        0 <= n <= s.len(),
        columns_parsed::<T>(s.take(n)) is Err,
    ensures
        columns_parsed::<T>(s) == columns_parsed::<T>(s.take(n)),
    decreases s.len() - n,
{
    if n < s.len() {
        assert(s.take(n + 1).drop_last() =~= s.take(n));
        lemma_columns_error::<T>(s, n + 1);
    } else {
        assert(s.take(n) =~= s);
    }
}

fn columns_to_dto<T: Wire>(m: &ColumnMap<T>) -> (r: ColumnMap<T::Dto>)
    ensures
        r@ == columns_plain::<T>(m@),
        columns_parsed::<T>(r@) == Ok::<Seq<(Seq<char>, T::V)>, ListParseErrorView>(m@),
{
    m.note_ascending();
    let mut out: ColumnMap<T::Dto> = ColumnMap::new();
    let n: usize = m.len();
    let mut i: usize = 0;
    let ghost want = columns_plain::<T>(m@);
    proof {
        assert(want.take(0) =~= Seq::empty());
        assert(m@.take(0) =~= Seq::empty());
    }
    while i < n
        invariant
            n == m@.len(),
            i <= n,
            ascending(m@),
            want == columns_plain::<T>(m@),
            out@ == want.take(i as int),
            columns_parsed::<T>(out@) == Ok::<Seq<(Seq<char>, T::V)>, ListParseErrorView>(
                m@.take(i as int),
            ),
        decreases n - i,
    {
        let key = m.key_at(i).clone();
        let value = m.value_at(i).to_dto();
        let ghost before = out@;
        proof {
            assert forall|j: int| 0 <= j < before.len() implies key_lt(
                #[trigger] before[j].0,
                key@,
            ) by {
                assert(key_lt(m@[j].0, m@[i as int].0));
            }
            lemma_insert_last(before, key@, value@);
        }
        out.insert(key, value);
        proof {
            assert(out@ =~= want.take(i as int + 1));
            assert(out@.drop_last() =~= before);
            assert(m@.take(i as int).push(m@[i as int]) =~= m@.take(i as int + 1));
        }
        i = i + 1;
    }
    proof {
        assert(want.take(n as int) =~= want);
        assert(m@.take(n as int) =~= m@);
    }
    out
}

fn columns_from_dto<T: Wire>(m: &ColumnMap<T::Dto>) -> (r: Result<ColumnMap<T>, ListParseError>)
    ensures
        match r {
            Ok(v) => columns_parsed::<T>(m@) == Ok::<Seq<(Seq<char>, T::V)>, ListParseErrorView>(
                v@,
            ),
            Err(e) => columns_parsed::<T>(m@) == Err::<Seq<(Seq<char>, T::V)>, ListParseErrorView>(
                e@,
            ),
        },
{
    m.note_ascending();
    let mut out: ColumnMap<T> = ColumnMap::new();
    let n: usize = m.len();
    let mut i: usize = 0;
    proof {
        assert(m@.take(0) =~= Seq::empty());
    }
    while i < n
        invariant
            n == m@.len(),
            i <= n,
            ascending(m@),
            columns_parsed::<T>(m@.take(i as int)) == Ok::<
                Seq<(Seq<char>, T::V)>,
                ListParseErrorView,
            >(out@),
            out@.len() == i,
            forall|j: int| 0 <= j < i ==> (#[trigger] out@[j]).0 == m@[j].0,
        decreases n - i,
    {
        proof {
            assert(m@.take(i as int + 1).drop_last() =~= m@.take(i as int));
            assert(m@.take(i as int + 1).last() == m@[i as int]);
        }
        match T::from_dto(m.value_at(i)) {
            Err(e) => {
                proof {
                    lemma_columns_error::<T>(m@, i as int + 1);
                }
                return Err(e);
            },
            Ok(value) => {
                let key = m.key_at(i).clone();
                let ghost before = out@;
                proof {
                    assert forall|j: int| 0 <= j < before.len() implies key_lt(
                        #[trigger] before[j].0,
                        key@,
                    ) by {
                        assert(key_lt(m@[j].0, m@[i as int].0));
                    }
                    lemma_insert_last(before, key@, value@);
                }
                out.insert(key, value);
            },
        }
        i = i + 1;
    }
    proof {
        assert(m@.take(n as int) =~= m@);
    }
    Ok(out)
}

// ---------------------------------------------------------------- scalar columns

#[derive(Debug)]
pub struct ScalarStatsAggDto {
    pub min: String,
    pub max: String,
}

pub struct ScalarStatsAggDtoView {
    pub min: Seq<char>,
    pub max: Seq<char>,
}

impl View for ScalarStatsAggDto {
    type V = ScalarStatsAggDtoView;

    open spec fn view(&self) -> ScalarStatsAggDtoView {
        ScalarStatsAggDtoView { min: self.min@, max: self.max@ }
    }
}

impl Wire for ScalarStatsAgg {
    type Dto = ScalarStatsAggDto;

    open spec fn plain(v: ScalarStatsAggView) -> ScalarStatsAggDtoView {
        ScalarStatsAggDtoView { min: base64_text(v.min), max: base64_text(v.max) }
    }

    open spec fn parsed(d: ScalarStatsAggDtoView) -> Result<
        ScalarStatsAggView,
        ListParseErrorView,
    > {
        match b64_parsed(d.min, "scalar_stats_agg.min"@) {
            Err(e) => Err(e),
            Ok(min) => match b64_parsed(d.max, "scalar_stats_agg.max"@) {
                Err(e) => Err(e),
                Ok(max) => Ok(ScalarStatsAggView { min, max }),
            },
        }
    }

    fn to_dto(&self) -> (r: ScalarStatsAggDto) {
        ScalarStatsAggDto {
            min: base64_encode(self.min.as_slice()),
            max: base64_encode(self.max.as_slice()),
        }
    }

    fn from_dto(d: &ScalarStatsAggDto) -> (r: Result<Self, ListParseError>) {
        match decode_b64(d.min.as_str(), "scalar_stats_agg.min") {
            Err(e) => Err(e),
            Ok(min) => match decode_b64(d.max.as_str(), "scalar_stats_agg.max") {
                Err(e) => Err(e),
                Ok(max) => Ok(ScalarStatsAgg { min, max }),
            },
        }
    }
}

// ---------------------------------------------------------------- full-text columns

#[derive(Debug)]
pub struct TermRangeUnionDto {
    pub min: String,
    pub max: String,
}

#[derive(Debug)]
pub struct FtsSummaryAggDto {
    pub term_bloom_union: String,
    pub term_bloom_n_blocks: u32,
    pub n_terms_distinct: u64,
    pub term_range_union: Option<TermRangeUnionDto>,
}

pub struct FtsSummaryAggDtoView {
    pub term_bloom_union: Seq<char>,
    pub term_bloom_n_blocks: u32,
    pub n_terms_distinct: u64,
    pub term_range_union: Option<(Seq<char>, Seq<char>)>,
}

impl View for FtsSummaryAggDto {
    type V = FtsSummaryAggDtoView;

    open spec fn view(&self) -> FtsSummaryAggDtoView {
        FtsSummaryAggDtoView {
            term_bloom_union: self.term_bloom_union@,
            term_bloom_n_blocks: self.term_bloom_n_blocks,
            n_terms_distinct: self.n_terms_distinct,
            term_range_union: match self.term_range_union {
                Some(t) => Some((t.min@, t.max@)),
                None => None,
            },
        }
    }
}

/// The range of an optional pair of base64 texts.
pub open spec fn range_parsed(d: Option<(Seq<char>, Seq<char>)>) -> Result<
    Option<(Seq<u8>, Seq<u8>)>,
    ListParseErrorView,
> {
    match d {
        None => Ok(None),
        Some(t) => match b64_parsed(t.0, "term_range_union.min"@) {
            Err(e) => Err(e),
            Ok(min) => match b64_parsed(t.1, "term_range_union.max"@) {
                Err(e) => Err(e),
                Ok(max) => Ok(Some((min, max))),
            },
        },
    }
}

impl Wire for FtsSummaryAgg {
    type Dto = FtsSummaryAggDto;

    open spec fn plain(v: FtsSummaryAggView) -> FtsSummaryAggDtoView {
        FtsSummaryAggDtoView {
            term_bloom_union: base64_text(v.term_bloom_union),
            term_bloom_n_blocks: v.term_bloom_n_blocks,
            n_terms_distinct: v.n_terms_distinct,
            term_range_union: match v.term_range_union {
                Some(t) => Some((base64_text(t.0), base64_text(t.1))),
                None => None,
            },
        }
    }

    open spec fn parsed(d: FtsSummaryAggDtoView) -> Result<FtsSummaryAggView, ListParseErrorView> {
        match b64_parsed(d.term_bloom_union, "term_bloom_union"@) {
            Err(e) => Err(e),
            Ok(bloom) => match range_parsed(d.term_range_union) {
                Err(e) => Err(e),
                Ok(range) => Ok(
                    FtsSummaryAggView {
                        term_bloom_union: bloom,
                        term_bloom_n_blocks: d.term_bloom_n_blocks,
                        n_terms_distinct: d.n_terms_distinct,
                        term_range_union: range,
                    },
                ),
            },
        }
    }

    fn to_dto(&self) -> (r: FtsSummaryAggDto) {
        FtsSummaryAggDto {
            term_bloom_union: base64_encode(self.term_bloom_union.as_slice()),
            term_bloom_n_blocks: self.term_bloom_n_blocks,
            n_terms_distinct: self.n_terms_distinct,
            term_range_union: match &self.term_range_union {
                Some(t) => Some(
                    TermRangeUnionDto {
                        min: base64_encode(t.0.as_slice()),
                        max: base64_encode(t.1.as_slice()),
                    },
                ),
                None => None,
            },
        }
    }

    fn from_dto(d: &FtsSummaryAggDto) -> (r: Result<Self, ListParseError>) {
        let bloom = match decode_b64(d.term_bloom_union.as_str(), "term_bloom_union") {
            Err(e) => return Err(e),
            Ok(b) => b,
        };
        let range = match &d.term_range_union {
            None => None,
            Some(t) => {
                let min = match decode_b64(t.min.as_str(), "term_range_union.min") {
                    Err(e) => return Err(e),
                    Ok(b) => b,
                };
                let max = match decode_b64(t.max.as_str(), "term_range_union.max") {
                    Err(e) => return Err(e),
                    Ok(b) => b,
                };
                Some((min, max))
            },
        };
        Ok(
            FtsSummaryAgg {
                term_bloom_union: bloom,
                term_bloom_n_blocks: d.term_bloom_n_blocks,
                n_terms_distinct: d.n_terms_distinct,
                term_range_union: range,
            },
        )
    }
}

// ---------------------------------------------------------------- vector columns

#[derive(Debug)]
pub struct VectorSummaryAggDto {
    pub centroid_envelope: String,
    /// Bit pattern of a single-precision float.
    pub envelope_radius: u32,
}

pub struct VectorSummaryAggDtoView {
    pub centroid_envelope: Seq<char>,
    pub envelope_radius: u32,
}

impl View for VectorSummaryAggDto {
    type V = VectorSummaryAggDtoView;

    open spec fn view(&self) -> VectorSummaryAggDtoView {
        VectorSummaryAggDtoView {
            centroid_envelope: self.centroid_envelope@,
            envelope_radius: self.envelope_radius,
        }
    }
}

impl Wire for VectorSummaryAgg {
    type Dto = VectorSummaryAggDto;

    open spec fn plain(v: VectorSummaryAggView) -> VectorSummaryAggDtoView {
        VectorSummaryAggDtoView {
            centroid_envelope: base64_text(v.centroid_envelope),
            envelope_radius: v.envelope_radius,
        }
    }

    open spec fn parsed(d: VectorSummaryAggDtoView) -> Result<
        VectorSummaryAggView,
        ListParseErrorView,
    > {
        match b64_parsed(d.centroid_envelope, "centroid_envelope"@) {
            Err(e) => Err(e),
            Ok(b) => Ok(
                VectorSummaryAggView { centroid_envelope: b, envelope_radius: d.envelope_radius },
            ),
        }
    }

    fn to_dto(&self) -> (r: VectorSummaryAggDto) {
        VectorSummaryAggDto {
            centroid_envelope: base64_encode(self.centroid_envelope.as_slice()),
            envelope_radius: self.envelope_radius,
        }
    }

    fn from_dto(d: &VectorSummaryAggDto) -> (r: Result<Self, ListParseError>) {
        match decode_b64(d.centroid_envelope.as_str(), "centroid_envelope") {
            Err(e) => Err(e),
            Ok(b) => Ok(
                VectorSummaryAgg { centroid_envelope: b, envelope_radius: d.envelope_radius },
            ),
        }
    }
}

// ---------------------------------------------------------------- parts

/// One manifest part of the list in plain form.
#[derive(Debug)]
pub struct ManifestListEntryDto {
    pub part_id: String,
    pub uri: String,
    pub n_superfiles: u64,
    pub size_bytes_compressed: u64,
    pub size_bytes_uncompressed: u64,
    pub content_hash: String,
    pub partition_key: String,
    /// Decimal numerals: a JSON number does not hold 128 bits.
    pub id_range: (String, String),
    pub scalar_stats_agg: ColumnMap<ScalarStatsAggDto>,
    pub fts_summary_agg: ColumnMap<FtsSummaryAggDto>,
    pub vector_summary_agg: ColumnMap<VectorSummaryAggDto>,
}

pub struct ManifestListEntryDtoView {
    pub part_id: Seq<char>,
    pub uri: Seq<char>,
    pub n_superfiles: u64,
    pub size_bytes_compressed: u64,
    pub size_bytes_uncompressed: u64,
    pub content_hash: Seq<char>,
    pub partition_key: Seq<char>,
    pub id_range: (Seq<char>, Seq<char>),
    pub scalar_stats_agg: Seq<(Seq<char>, ScalarStatsAggDtoView)>,
    pub fts_summary_agg: Seq<(Seq<char>, FtsSummaryAggDtoView)>,
    pub vector_summary_agg: Seq<(Seq<char>, VectorSummaryAggDtoView)>,
}

impl View for ManifestListEntryDto {
    type V = ManifestListEntryDtoView;

    open spec fn view(&self) -> ManifestListEntryDtoView {
        ManifestListEntryDtoView {
            part_id: self.part_id@,
            uri: self.uri@,
            n_superfiles: self.n_superfiles,
            size_bytes_compressed: self.size_bytes_compressed,
            size_bytes_uncompressed: self.size_bytes_uncompressed,
            content_hash: self.content_hash@,
            partition_key: self.partition_key@,
            id_range: (self.id_range.0@, self.id_range.1@),
            scalar_stats_agg: self.scalar_stats_agg@,
            fts_summary_agg: self.fts_summary_agg@,
            vector_summary_agg: self.vector_summary_agg@,
        }
    }
}

/// The plain form of a part.
pub open spec fn entry_plain(e: ManifestListEntryView) -> ManifestListEntryDtoView {
    ManifestListEntryDtoView {
        part_id: id_text(e.part_id.0),
        uri: e.uri,
        n_superfiles: e.n_superfiles,
        size_bytes_compressed: e.size_bytes_compressed,
        size_bytes_uncompressed: e.size_bytes_uncompressed,
        content_hash: hash_text(e.content_hash),
        partition_key: base64_text(e.partition_key),
        id_range: (int_text(e.id_range.0 as int), int_text(e.id_range.1 as int)),
        scalar_stats_agg: columns_plain::<ScalarStatsAgg>(e.scalar_stats_agg),
        fts_summary_agg: columns_plain::<FtsSummaryAgg>(e.fts_summary_agg),
        vector_summary_agg: columns_plain::<VectorSummaryAgg>(e.vector_summary_agg),
    }
}

/// A number written as decimal numeral.
pub open spec fn number_parsed(s: Seq<char>, name: Seq<char>) -> Result<i128, ListParseErrorView> {
    match i128_parsed(s) {
        Some(n) => Ok(n),
        None => Err(ListParseErrorView::BadFieldValue(name, s)),
    }
}

/// An identity written as text.
pub open spec fn part_id_parsed(s: Seq<char>) -> Result<u128, ListParseErrorView> {
    match id_parsed(s) {
        Ok(id) => Ok(id),
        Err(m) => Err(ListParseErrorView::BadPartId(m)),
    }
}

/// The part of a plain form, or the first fault in it.
pub open spec fn entry_parsed(d: ManifestListEntryDtoView) -> Result<
    ManifestListEntryView,
    ListParseErrorView,
> {
    match (
        part_id_parsed(d.part_id),
        hash_parsed(d.content_hash),
        b64_parsed(d.partition_key, "partition_key"@),
        columns_parsed::<ScalarStatsAgg>(d.scalar_stats_agg),
        columns_parsed::<FtsSummaryAgg>(d.fts_summary_agg),
        columns_parsed::<VectorSummaryAgg>(d.vector_summary_agg),
        number_parsed(d.id_range.0, "id_range[0]"@),
        number_parsed(d.id_range.1, "id_range[1]"@),
    ) {
        (Err(e), _, _, _, _, _, _, _) => Err(e),
        (_, Err(e), _, _, _, _, _, _) => Err(e),
        (_, _, Err(e), _, _, _, _, _) => Err(e),
        (_, _, _, Err(e), _, _, _, _) => Err(e),
        (_, _, _, _, Err(e), _, _, _) => Err(e),
        (_, _, _, _, _, Err(e), _, _) => Err(e),
        (_, _, _, _, _, _, Err(e), _) => Err(e),
        (_, _, _, _, _, _, _, Err(e)) => Err(e),
        (Ok(id), Ok(hash), Ok(key), Ok(stats), Ok(fts), Ok(vec), Ok(lo), Ok(hi)) => Ok(
            ManifestListEntryView {
                part_id: PartId(id),
                uri: d.uri,
                n_superfiles: d.n_superfiles,
                size_bytes_compressed: d.size_bytes_compressed,
                size_bytes_uncompressed: d.size_bytes_uncompressed,
                content_hash: hash,
                partition_key: key,
                id_range: (lo, hi),
                scalar_stats_agg: stats,
                fts_summary_agg: fts,
                vector_summary_agg: vec,
            },
        ),
    }
}

fn number_text(n: i128) -> (r: String)
    ensures
        r@ == int_text(n as int),
{
    let mut out = String::new();
    push_int(&mut out, n);
    proof {
        assert(out@ =~= int_text(n as int));
    }
    out
}

/// A part in plain form, from which it can be had again.
pub fn entry_to_dto(e: &ManifestListEntry) -> (r: ManifestListEntryDto)
    ensures
        r@ == entry_plain(e@),
        entry_parsed(r@) == Ok::<ManifestListEntryView, ListParseErrorView>(e@),
{
    let part_id = write_id(e.part_id.0);
    let partition_key = base64_encode(e.partition_key.as_slice());
    let scalar_stats_agg = columns_to_dto::<ScalarStatsAgg>(&e.scalar_stats_agg);
    let fts_summary_agg = columns_to_dto::<FtsSummaryAgg>(&e.fts_summary_agg);
    let vector_summary_agg = columns_to_dto::<VectorSummaryAgg>(&e.vector_summary_agg);
    proof {
        hash_text_round_trip(e.content_hash@);
        i128_text_round_trip(e.id_range.0);
        i128_text_round_trip(e.id_range.1);
    }
    ManifestListEntryDto {
        part_id,
        uri: e.uri.clone(),
        n_superfiles: e.n_superfiles,
        size_bytes_compressed: e.size_bytes_compressed,
        size_bytes_uncompressed: e.size_bytes_uncompressed,
        content_hash: encode_hash(&e.content_hash),
        partition_key,
        id_range: (number_text(e.id_range.0), number_text(e.id_range.1)),
        scalar_stats_agg,
        fts_summary_agg,
        vector_summary_agg,
    }
}

fn decode_number(s: &str, field: &'static str) -> (r: Result<i128, ListParseError>)
    ensures
        match r {
            Ok(n) => number_parsed(s@, field@) == Ok::<i128, ListParseErrorView>(n),
            Err(e) => number_parsed(s@, field@) == Err::<i128, ListParseErrorView>(e@),
        },
{
    match parse_i128(s) {
        Some(n) => Ok(n),
        None => Err(ListParseError::BadFieldValue(field, s.to_string())),
    }
}

/// The part of a plain form, or the first fault in it.
pub fn entry_from_dto(d: &ManifestListEntryDto) -> (r: Result<ManifestListEntry, ListParseError>)
    ensures
        match r {
            Ok(e) => entry_parsed(d@) == Ok::<ManifestListEntryView, ListParseErrorView>(e@),
            Err(e) => entry_parsed(d@) == Err::<ManifestListEntryView, ListParseErrorView>(e@),
        },
{
    let part_id = match parse_id(d.part_id.as_str()) {
        Ok(id) => PartId(id),
        Err(m) => return Err(ListParseError::BadPartId(m)),
    };
    let content_hash = match decode_hash(d.content_hash.as_str()) {
        Ok(h) => h,
        Err(e) => return Err(e),
    };
    let partition_key = match decode_b64(d.partition_key.as_str(), "partition_key") {
        Ok(b) => b,
        Err(e) => return Err(e),
    };
    let scalar_stats_agg = match columns_from_dto::<ScalarStatsAgg>(&d.scalar_stats_agg) {
        Ok(m) => m,
        Err(e) => return Err(e),
    };
    let fts_summary_agg = match columns_from_dto::<FtsSummaryAgg>(&d.fts_summary_agg) {
        Ok(m) => m,
        Err(e) => return Err(e),
    };
    let vector_summary_agg = match columns_from_dto::<VectorSummaryAgg>(&d.vector_summary_agg) {
        Ok(m) => m,
        Err(e) => return Err(e),
    };
    let lo = match decode_number(d.id_range.0.as_str(), "id_range[0]") {
        Ok(n) => n,
        Err(e) => return Err(e),
    };
    let hi = match decode_number(d.id_range.1.as_str(), "id_range[1]") {
        Ok(n) => n,
        Err(e) => return Err(e),
    };
    Ok(
        ManifestListEntry {
            part_id,
            uri: d.uri.clone(),
            n_superfiles: d.n_superfiles,
            size_bytes_compressed: d.size_bytes_compressed,
            size_bytes_uncompressed: d.size_bytes_uncompressed,
            content_hash,
            partition_key,
            id_range: (lo, hi),
            scalar_stats_agg,
            fts_summary_agg,
            vector_summary_agg,
        },
    )
}

// ---------------------------------------------------------------- strategies

/// A partition strategy in plain form.
#[derive(Debug)]
pub enum PartitionStrategyDto {
    TimeRange { column: String, granularity_secs: i64 },
    Hash { column: String, n_buckets: u32 },
    ColumnRange { column: String, boundaries: Vec<String> },
}

pub enum PartitionStrategyDtoView {
    TimeRange { column: Seq<char>, granularity_secs: i64 },
    Hash { column: Seq<char>, n_buckets: u32 },
    ColumnRange { column: Seq<char>, boundaries: Seq<Seq<char>> },
}

impl View for PartitionStrategyDto {
    type V = PartitionStrategyDtoView;

    open spec fn view(&self) -> PartitionStrategyDtoView {
        match *self {
            PartitionStrategyDto::TimeRange { column, granularity_secs } =>
                PartitionStrategyDtoView::TimeRange { column: column@, granularity_secs },
            PartitionStrategyDto::Hash { column, n_buckets } => PartitionStrategyDtoView::Hash {
                column: column@,
                n_buckets,
            },
            PartitionStrategyDto::ColumnRange { column, boundaries } =>
                PartitionStrategyDtoView::ColumnRange {
                column: column@,
                boundaries: texts(boundaries@),
            },
        }
    }
}

/// The plain form of boundaries.
pub open spec fn boundaries_plain(s: Seq<Seq<u8>>) -> Seq<Seq<char>> {
    Seq::new(s.len(), |i: int| base64_text(s[i]))
}

/// The boundaries of a plain form, or the first fault in it.
pub open spec fn boundaries_parsed(s: Seq<Seq<char>>) -> Result<Seq<Seq<u8>>, ListParseErrorView>
    decreases s.len(),
{
    if s.len() == 0 {
        Ok(Seq::empty())
    } else {
        match boundaries_parsed(s.drop_last()) {
            Err(e) => Err(e),
            Ok(head) => match b64_parsed(s.last(), "partition_strategy.boundaries"@) {
                Err(e) => Err(e),
                Ok(b) => Ok(head.push(b)),
            },
        }
    }
}

proof fn lemma_boundaries_error(s: Seq<Seq<char>>, n: int)
    requires
        0 <= n <= s.len(),
        boundaries_parsed(s.take(n)) is Err,
    ensures
        boundaries_parsed(s) == boundaries_parsed(s.take(n)),
    decreases s.len() - n,
{
    if n < s.len() {
        assert(s.take(n + 1).drop_last() =~= s.take(n));
        lemma_boundaries_error(s, n + 1);
    } else {
        assert(s.take(n) =~= s);
    }
}

/// The plain form of a strategy.
pub open spec fn strategy_plain(s: PartitionStrategyView) -> PartitionStrategyDtoView {
    match s {
        PartitionStrategyView::TimeRange { column, granularity_secs } =>
            PartitionStrategyDtoView::TimeRange { column, granularity_secs },
        PartitionStrategyView::Hash { column, n_buckets } => PartitionStrategyDtoView::Hash {
            column,
            n_buckets,
        },
        PartitionStrategyView::ColumnRange { column, boundaries } =>
            PartitionStrategyDtoView::ColumnRange {
            column,
            boundaries: boundaries_plain(boundaries),
        },
    }
}

/// The strategy of a plain form.
pub open spec fn strategy_parsed(d: PartitionStrategyDtoView) -> Result<
    PartitionStrategyView,
    ListParseErrorView,
> {
    match d {
        PartitionStrategyDtoView::TimeRange { column, granularity_secs } => Ok(
            PartitionStrategyView::TimeRange { column, granularity_secs },
        ),
        PartitionStrategyDtoView::Hash { column, n_buckets } => Ok(
            PartitionStrategyView::Hash { column, n_buckets },
        ),
        PartitionStrategyDtoView::ColumnRange { column, boundaries } => match boundaries_parsed(
            boundaries,
        ) {
            Err(e) => Err(e),
            Ok(b) => Ok(PartitionStrategyView::ColumnRange { column, boundaries: b }),
        },
    }
}

fn boundaries_to_dto(s: &Vec<Vec<u8>>) -> (r: Vec<String>)
    ensures
        texts(r@) == boundaries_plain(byte_strings(s@)),
        boundaries_parsed(texts(r@)) == Ok::<Seq<Seq<u8>>, ListParseErrorView>(byte_strings(s@)),
{
    let mut out: Vec<String> = Vec::new();
    let mut i: usize = 0;
    let ghost v = byte_strings(s@);
    proof {
        assert(texts(out@) =~= Seq::empty());
        assert(v.take(0) =~= Seq::empty());
        assert(boundaries_plain(v.take(0)) =~= Seq::empty());
    }
    while i < s.len()
        invariant
            i <= s@.len(),
            v == byte_strings(s@),
            texts(out@) == boundaries_plain(v.take(i as int)),
            boundaries_parsed(texts(out@)) == Ok::<Seq<Seq<u8>>, ListParseErrorView>(
                v.take(i as int),
            ),
        decreases s@.len() - i,
    {
        let ghost before = texts(out@);
        let t = base64_encode(s[i].as_slice());
        out.push(t);
        proof {
            assert(texts(out@).drop_last() =~= before);
            assert(texts(out@).last() == t@);
            assert(v.take(i as int).push(v[i as int]) =~= v.take(i as int + 1));
            let next = v.take(i as int + 1);
            assert forall|k: int| 0 <= k < i + 1 implies #[trigger] texts(out@)[k]
                == boundaries_plain(next)[k] by {
                if k < i {
                    assert(texts(out@)[k] == before[k]);
                    assert(next[k] == v.take(i as int)[k]);
                }
            }
            assert(texts(out@) =~= boundaries_plain(next));
        }
        i = i + 1;
    }
    proof {
        assert(v.take(i as int) =~= v);
    }
    out
}

fn boundaries_from_dto(s: &Vec<String>) -> (r: Result<Vec<Vec<u8>>, ListParseError>)
    ensures
        match r {
            Ok(b) => boundaries_parsed(texts(s@)) == Ok::<Seq<Seq<u8>>, ListParseErrorView>(
                byte_strings(b@),
            ),
            Err(e) => boundaries_parsed(texts(s@)) == Err::<Seq<Seq<u8>>, ListParseErrorView>(e@),
        },
{
    let mut out: Vec<Vec<u8>> = Vec::new();
    let mut i: usize = 0;
    let ghost v = texts(s@);
    proof {
        assert(byte_strings(out@) =~= Seq::empty());
        assert(v.take(0) =~= Seq::empty());
    }
    while i < s.len()
        invariant
            i <= s@.len(),
            v == texts(s@),
            boundaries_parsed(v.take(i as int)) == Ok::<Seq<Seq<u8>>, ListParseErrorView>(
                byte_strings(out@),
            ),
        decreases s@.len() - i,
    {
        proof {
            assert(v.take(i as int + 1).drop_last() =~= v.take(i as int));
            assert(v.take(i as int + 1).last() == s@[i as int]@);
        }
        match decode_b64(s[i].as_str(), "partition_strategy.boundaries") {
            Err(e) => {
                proof {
                    lemma_boundaries_error(v, i as int + 1);
                }
                return Err(e);
            },
            Ok(b) => {
                let ghost before = byte_strings(out@);
                out.push(b);
                proof {
                    assert(byte_strings(out@) =~= before.push(b@));
                }
            },
        }
        i = i + 1;
    }
    proof {
        assert(v.take(i as int) =~= v);
    }
    Ok(out)
}

/// A strategy in plain form, from which it can be had again.
pub fn strategy_to_dto(s: &PartitionStrategy) -> (r: PartitionStrategyDto)
    ensures
        r@ == strategy_plain(s@),
        strategy_parsed(r@) == Ok::<PartitionStrategyView, ListParseErrorView>(s@),
{
    match s {
        PartitionStrategy::TimeRange { column, granularity_secs } =>
            PartitionStrategyDto::TimeRange {
            column: column.clone(),
            granularity_secs: *granularity_secs,
        },
        PartitionStrategy::Hash { column, n_buckets } => PartitionStrategyDto::Hash {
            column: column.clone(),
            n_buckets: *n_buckets,
        },
        PartitionStrategy::ColumnRange { column, boundaries } => {
            PartitionStrategyDto::ColumnRange {
                column: column.clone(),
                boundaries: boundaries_to_dto(boundaries),
            }
        },
    }
}

/// The strategy of a plain form.
pub fn strategy_from_dto(d: &PartitionStrategyDto) -> (r: Result<PartitionStrategy, ListParseError>)
    ensures
        match r {
            Ok(s) => strategy_parsed(d@) == Ok::<PartitionStrategyView, ListParseErrorView>(s@),
            Err(e) => strategy_parsed(d@) == Err::<PartitionStrategyView, ListParseErrorView>(e@),
        },
{
    match d {
        PartitionStrategyDto::TimeRange { column, granularity_secs } => Ok(
            PartitionStrategy::TimeRange {
                column: column.clone(),
                granularity_secs: *granularity_secs,
            },
        ),
        PartitionStrategyDto::Hash { column, n_buckets } => Ok(
            PartitionStrategy::Hash { column: column.clone(), n_buckets: *n_buckets },
        ),
        PartitionStrategyDto::ColumnRange { column, boundaries } => match boundaries_from_dto(
            boundaries,
        ) {
            Err(e) => Err(e),
            Ok(b) => Ok(PartitionStrategy::ColumnRange { column: column.clone(), boundaries: b }),
        },
    }
}

// ---------------------------------------------------------------- lists

/// A vector column in plain form.
#[derive(Debug)]
pub struct VectorColumnInfoDto {
    pub column: String,
    pub dim: u64,
    pub n_cent: u64,
    pub rot_seed: u64,
    pub metric: String,
}

impl View for VectorColumnInfoDto {
    type V = VectorColumnInfoView;

    open spec fn view(&self) -> VectorColumnInfoView {
        VectorColumnInfoView {
            column: self.column@,
            dim: self.dim as nat,
            n_cent: self.n_cent as nat,
            rot_seed: self.rot_seed,
            metric: self.metric@,
        }
    }
}

/// The manifest list in plain form.
#[derive(Debug)]
pub struct ManifestListDto {
    pub format_version: String,
    pub manifest_id: u64,
    pub options_hash: String,
    pub schema: String,
    pub id_column: String,
    pub fts_columns: Vec<FtsColumnInfo>,
    pub vector_columns: Vec<VectorColumnInfoDto>,
    pub partition_strategy: PartitionStrategyDto,
    pub parts: Vec<ManifestListEntryDto>,
}

pub struct ManifestListDtoView {
    pub format_version: Seq<char>,
    pub manifest_id: u64,
    pub options_hash: Seq<char>,
    pub schema: Seq<char>,
    pub id_column: Seq<char>,
    pub fts_columns: Seq<Seq<char>>,
    pub vector_columns: Seq<VectorColumnInfoView>,
    pub partition_strategy: PartitionStrategyDtoView,
    pub parts: Seq<ManifestListEntryDtoView>,
}

/// The vector columns of a plain form.
pub open spec fn vector_dto_views(s: Seq<VectorColumnInfoDto>) -> Seq<VectorColumnInfoView> {
    Seq::new(s.len(), |i: int| s[i]@)
}

/// The parts of a plain form.
pub open spec fn part_dto_views(s: Seq<ManifestListEntryDto>) -> Seq<ManifestListEntryDtoView> {
    Seq::new(s.len(), |i: int| s[i]@)
}

impl View for ManifestListDto {
    type V = ManifestListDtoView;

    open spec fn view(&self) -> ManifestListDtoView {
        ManifestListDtoView {
            format_version: self.format_version@,
            manifest_id: self.manifest_id,
            options_hash: self.options_hash@,
            schema: self.schema@,
            id_column: self.id_column@,
            fts_columns: fts_views(self.fts_columns@),
            vector_columns: vector_dto_views(self.vector_columns@),
            partition_strategy: self.partition_strategy@,
            parts: part_dto_views(self.parts@),
        }
    }
}

/// The plain form of a list.
pub open spec fn list_plain(l: ManifestListView) -> ManifestListDtoView {
    ManifestListDtoView {
        format_version: l.format_version,
        manifest_id: l.manifest_id,
        options_hash: hash_text(l.options_hash),
        schema: base64_text(l.schema),
        id_column: l.id_column,
        fts_columns: l.fts_columns,
        vector_columns: l.vector_columns,
        partition_strategy: strategy_plain(l.partition_strategy),
        parts: Seq::new(l.parts.len(), |i: int| entry_plain(l.parts[i])),
    }
}

/// A version is read if its major number is the supported one.
pub open spec fn version_checked(got: Seq<char>) -> Result<(), ListParseErrorView> {
    if until(got, '.') == until(FORMAT_VERSION@, '.') {
        Ok(())
    } else {
        Err(ListParseErrorView::IncompatibleMajorVersion { got, supported: FORMAT_VERSION@ })
    }
}

/// The parts of a list of plain forms, or the first fault among them.
pub open spec fn entries_parsed(s: Seq<ManifestListEntryDtoView>) -> Result<
    Seq<ManifestListEntryView>,
    ListParseErrorView,
>
    decreases s.len(),
{
    if s.len() == 0 {
        Ok(Seq::empty())
    } else {
        match entries_parsed(s.drop_last()) {
            Err(e) => Err(e),
            Ok(head) => match entry_parsed(s.last()) {
                Err(e) => Err(e),
                Ok(v) => Ok(head.push(v)),
            },
        }
    }
}

proof fn lemma_entries_error(s: Seq<ManifestListEntryDtoView>, n: int)
    requires
        0 <= n <= s.len(),
        entries_parsed(s.take(n)) is Err,
    ensures
        entries_parsed(s) == entries_parsed(s.take(n)),
    decreases s.len() - n,
{
    if n < s.len() {
        assert(s.take(n + 1).drop_last() =~= s.take(n));
        lemma_entries_error(s, n + 1);
    } else {
        assert(s.take(n) =~= s);
    }
}

/// The list of a plain form, or the first fault in it. Numbers of columns are
/// at most `usize::MAX` on this machine.
pub open spec fn list_parsed(d: ManifestListDtoView) -> Result<
    ManifestListView,
    ListParseErrorView,
> {
    match (
        version_checked(d.format_version),
        hash_parsed(d.options_hash),
        b64_parsed(d.schema, "schema"@),
        entries_parsed(d.parts),
        strategy_parsed(d.partition_strategy),
    ) {
        (Err(e), _, _, _, _) => Err(e),
        (_, Err(e), _, _, _) => Err(e),
        (_, _, Err(e), _, _) => Err(e),
        (_, _, _, Err(e), _) => Err(e),
        (_, _, _, _, Err(e)) => Err(e),
        (Ok(()), Ok(options_hash), Ok(schema), Ok(parts), Ok(partition_strategy)) => Ok(
            ManifestListView {
                format_version: d.format_version,
                manifest_id: d.manifest_id,
                options_hash,
                schema,
                id_column: d.id_column,
                fts_columns: d.fts_columns,
                vector_columns: d.vector_columns,
                partition_strategy,
                parts,
            },
        ),
    }
}

pub(crate) fn copy_fts_columns(s: &Vec<FtsColumnInfo>) -> (r: Vec<FtsColumnInfo>)
    ensures
        fts_views(r@) == fts_views(s@),
{
    let mut r: Vec<FtsColumnInfo> = Vec::new();
    let mut i: usize = 0;
    while i < s.len()
        invariant
            i <= s@.len(),
            r@.len() == i,
            forall|k: int| 0 <= k < i ==> (#[trigger] r@[k])@ == s@[k]@,
        decreases s@.len() - i,
    {
        r.push(s[i].clone());
        i = i + 1;
    }
    assert(fts_views(r@) =~= fts_views(s@));
    r
}

fn vectors_to_dto(s: &Vec<VectorColumnInfo>) -> (r: Vec<VectorColumnInfoDto>)
    ensures
        vector_dto_views(r@) == vector_views(s@),
{
    let mut r: Vec<VectorColumnInfoDto> = Vec::new();
    let mut i: usize = 0;
    while i < s.len()
        invariant
            i <= s@.len(),
            r@.len() == i,
            forall|k: int| 0 <= k < i ==> (#[trigger] r@[k])@ == s@[k]@,
        decreases s@.len() - i,
    {
        let c = &s[i];
        r.push(
            VectorColumnInfoDto {
                column: c.column.clone(),
                dim: c.dim as u64,
                n_cent: c.n_cent as u64,
                rot_seed: c.rot_seed,
                metric: c.metric.clone(),
            },
        );
        i = i + 1;
    }
    assert(vector_dto_views(r@) =~= vector_views(s@));
    r
}

/// Column sizes that this machine can hold.
pub open spec fn sizes_fit(s: Seq<VectorColumnInfoView>) -> bool {
    forall|i: int|
        0 <= i < s.len() ==> (#[trigger] s[i]).dim <= usize::MAX && s[i].n_cent <= usize::MAX
}

fn vectors_from_dto(s: &Vec<VectorColumnInfoDto>) -> (r: Vec<VectorColumnInfo>)
    requires
        sizes_fit(vector_dto_views(s@)),
    ensures
        vector_views(r@) == vector_dto_views(s@),
{
    let mut r: Vec<VectorColumnInfo> = Vec::new();
    let mut i: usize = 0;
    while i < s.len()
        invariant
            i <= s@.len(),
            sizes_fit(vector_dto_views(s@)),
            r@.len() == i,
            forall|k: int| 0 <= k < i ==> (#[trigger] r@[k])@ == s@[k]@,
        decreases s@.len() - i,
    {
        let c = &s[i];
        proof {
            assert(vector_dto_views(s@)[i as int] == c@);
        }
        r.push(
            VectorColumnInfo {
                column: c.column.clone(),
                dim: c.dim as usize,
                n_cent: c.n_cent as usize,
                rot_seed: c.rot_seed,
                metric: c.metric.clone(),
            },
        );
        i = i + 1;
    }
    assert(vector_views(r@) =~= vector_dto_views(s@));
    r
}

fn entries_to_dto(s: &Vec<ManifestListEntry>) -> (r: Vec<ManifestListEntryDto>)
    ensures
        part_dto_views(r@) == Seq::new(s@.len(), |i: int| entry_plain(part_views(s@)[i])),
        entries_parsed(part_dto_views(r@)) == Ok::<Seq<ManifestListEntryView>, ListParseErrorView>(
            part_views(s@),
        ),
{
    let mut out: Vec<ManifestListEntryDto> = Vec::new();
    let mut i: usize = 0;
    let ghost v = part_views(s@);
    proof {
        assert(part_dto_views(out@) =~= Seq::empty());
        assert(v.take(0) =~= Seq::empty());
    }
    while i < s.len()
        invariant
            i <= s@.len(),
            v == part_views(s@),
            out@.len() == i,
            forall|k: int| 0 <= k < i ==> (#[trigger] out@[k])@ == entry_plain(v[k]),
            entries_parsed(part_dto_views(out@)) == Ok::<
                Seq<ManifestListEntryView>,
                ListParseErrorView,
            >(v.take(i as int)),
        decreases s@.len() - i,
    {
        let ghost before = part_dto_views(out@);
        let d = entry_to_dto(&s[i]);
        out.push(d);
        proof {
            assert(part_dto_views(out@).drop_last() =~= before);
            assert(part_dto_views(out@).last() == d@);
            assert(v.take(i as int).push(v[i as int]) =~= v.take(i as int + 1));
        }
        i = i + 1;
    }
    proof {
        assert(v.take(i as int) =~= v);
        assert(part_dto_views(out@) =~= Seq::new(s@.len(), |i: int| entry_plain(v[i])));
    }
    out
}

fn entries_from_dto(s: &Vec<ManifestListEntryDto>) -> (r: Result<
    Vec<ManifestListEntry>,
    ListParseError,
>)
    ensures
        match r {
            Ok(v) => entries_parsed(part_dto_views(s@)) == Ok::<
                Seq<ManifestListEntryView>,
                ListParseErrorView,
            >(part_views(v@)),
            Err(e) => entries_parsed(part_dto_views(s@)) == Err::<
                Seq<ManifestListEntryView>,
                ListParseErrorView,
            >(e@),
        },
{
    let mut out: Vec<ManifestListEntry> = Vec::new();
    let mut i: usize = 0;
    let ghost v = part_dto_views(s@);
    proof {
        assert(part_views(out@) =~= Seq::empty());
        assert(v.take(0) =~= Seq::empty());
    }
    while i < s.len()
        invariant
            i <= s@.len(),
            v == part_dto_views(s@),
            entries_parsed(v.take(i as int)) == Ok::<
                Seq<ManifestListEntryView>,
                ListParseErrorView,
            >(part_views(out@)),
        decreases s@.len() - i,
    {
        proof {
            assert(v.take(i as int + 1).drop_last() =~= v.take(i as int));
            assert(v.take(i as int + 1).last() == s@[i as int]@);
        }
        match entry_from_dto(&s[i]) {
            Err(e) => {
                proof {
                    lemma_entries_error(v, i as int + 1);
                }
                return Err(e);
            },
            Ok(entry) => {
                let ghost before = part_views(out@);
                out.push(entry);
                proof {
                    assert(part_views(out@) =~= before.push(entry@));
                }
            },
        }
        i = i + 1;
    }
    proof {
        assert(v.take(i as int) =~= v);
    }
    Ok(out)
}

/// The list in plain form, from which a list of a supported version can be had
/// again.
pub fn list_to_dto(l: &ManifestList) -> (r: ManifestListDto)
    ensures
        r@ == list_plain(l@),
        until(l@.format_version, '.') == until(FORMAT_VERSION@, '.') ==> list_parsed(r@) == Ok::<
            ManifestListView,
            ListParseErrorView,
        >(l@),
        sizes_fit(r@.vector_columns),
{
    let schema = base64_encode(l.schema.as_slice());
    let partition_strategy = strategy_to_dto(&l.partition_strategy);
    let parts = entries_to_dto(&l.parts);
    proof {
        hash_text_round_trip(l.options_hash@);
        assert(part_dto_views(parts@) =~= list_plain(l@).parts);
        assert(sizes_fit(vector_views(l.vector_columns@)));
    }
    ManifestListDto {
        format_version: l.format_version.clone(),
        manifest_id: l.manifest_id,
        options_hash: encode_hash(&l.options_hash),
        schema,
        id_column: l.id_column.clone(),
        fts_columns: copy_fts_columns(&l.fts_columns),
        vector_columns: vectors_to_dto(&l.vector_columns),
        partition_strategy,
        parts,
    }
}

fn check_major(fv: &str) -> (r: Result<(), ListParseError>)
    ensures
        match r {
            Ok(()) => version_checked(fv@) == Ok::<(), ListParseErrorView>(()),
            Err(e) => version_checked(fv@) == Err::<(), ListParseErrorView>(e@),
        },
{
    let supported = text_until(FORMAT_VERSION, '.');
    let got = text_until(fv, '.');
    if got != supported {
        return Err(
            ListParseError::IncompatibleMajorVersion {
                got: fv.to_string(),
                supported: FORMAT_VERSION.to_string(),
            },
        );
    }
    Ok(())
}

/// The list of a plain form, or the first fault in it.
pub fn list_from_dto(d: &ManifestListDto) -> (r: Result<ManifestList, ListParseError>)
    requires
        sizes_fit(d@.vector_columns),
    ensures
        match r {
            Ok(l) => list_parsed(d@) == Ok::<ManifestListView, ListParseErrorView>(l@),
            Err(e) => list_parsed(d@) == Err::<ManifestListView, ListParseErrorView>(e@),
        },
{
    match check_major(d.format_version.as_str()) {
        Ok(()) => {},
        Err(e) => return Err(e),
    }
    let options_hash = match decode_hash(d.options_hash.as_str()) {
        Ok(h) => h,
        Err(e) => return Err(e),
    };
    let schema = match decode_b64(d.schema.as_str(), "schema") {
        Ok(b) => b,
        Err(e) => return Err(e),
    };
    let parts = match entries_from_dto(&d.parts) {
        Ok(p) => p,
        Err(e) => return Err(e),
    };
    let partition_strategy = match strategy_from_dto(&d.partition_strategy) {
        Ok(s) => s,
        Err(e) => return Err(e),
    };
    Ok(
        ManifestList {
            format_version: d.format_version.clone(),
            manifest_id: d.manifest_id,
            options_hash,
            schema,
            id_column: d.id_column.clone(),
            fts_columns: copy_fts_columns(&d.fts_columns),
            vector_columns: vectors_from_dto(&d.vector_columns),
            partition_strategy,
            parts,
        },
    )
}

// ---------------------------------------------------------------- laws

/// The first number of a version decides whether a list is read: it is to be
/// one, whatever follows it.
pub proof fn lists_of_the_first_version_are_read(major: Seq<char>, rest: Seq<char>)
    requires
        !major.contains('.'),
    ensures
        version_checked(major + seq!['.'] + rest) is Ok <==> major == seq!['1'],
        version_checked(major) is Ok <==> major == seq!['1'],
{
    reveal_strlit("1.0");
    assert("1.0"@ =~= seq!['1'] + seq!['.'] + seq!['0']);
    assert(!seq!['1'].contains('.'));
    text_is_cut_at(seq!['1'], '.', seq!['0']);
    text_is_cut_at(major, '.', rest);
}

/// A part in plain form shows its smallest and its largest id as numerals, in
/// this order, its hash and identity as texts, and its counts as they are.
pub proof fn plain_parts_show_their_fields(e: ManifestListEntryView)
    ensures
        i128_parsed(entry_plain(e).id_range.0) == Some(e.id_range.0),
        i128_parsed(entry_plain(e).id_range.1) == Some(e.id_range.1),
        entry_plain(e).part_id == id_text(e.part_id.0),
        entry_plain(e).uri == e.uri,
        entry_plain(e).n_superfiles == e.n_superfiles,
        entry_plain(e).size_bytes_compressed == e.size_bytes_compressed,
        entry_plain(e).size_bytes_uncompressed == e.size_bytes_uncompressed,
        entry_plain(e).partition_key == base64_text(e.partition_key),
{
    i128_text_round_trip(e.id_range.0);
    i128_text_round_trip(e.id_range.1);
}

/// The aggregates of a part in plain form stand under their columns' names, in
/// order, the lower end before the upper.
pub proof fn plain_aggregates_show_their_ends(e: ManifestListEntryView, i: int)
    ensures
        0 <= i < e.scalar_stats_agg.len() ==> entry_plain(e).scalar_stats_agg[i].0
            == e.scalar_stats_agg[i].0 && entry_plain(e).scalar_stats_agg[i].1.min == base64_text(
            e.scalar_stats_agg[i].1.min,
        ) && entry_plain(e).scalar_stats_agg[i].1.max == base64_text(e.scalar_stats_agg[i].1.max),
        entry_plain(e).scalar_stats_agg.len() == e.scalar_stats_agg.len(),
        0 <= i < e.fts_summary_agg.len() ==> entry_plain(e).fts_summary_agg[i].0
            == e.fts_summary_agg[i].0 && match e.fts_summary_agg[i].1.term_range_union {
            Some(t) => entry_plain(e).fts_summary_agg[i].1.term_range_union == Some(
                (base64_text(t.0), base64_text(t.1)),
            ),
            None => entry_plain(e).fts_summary_agg[i].1.term_range_union is None,
        },
        entry_plain(e).fts_summary_agg.len() == e.fts_summary_agg.len(),
        0 <= i < e.vector_summary_agg.len() ==> entry_plain(e).vector_summary_agg[i].0
            == e.vector_summary_agg[i].0 && entry_plain(e).vector_summary_agg[i].1.envelope_radius
            == e.vector_summary_agg[i].1.envelope_radius,
        entry_plain(e).vector_summary_agg.len() == e.vector_summary_agg.len(),
{
}

/// The parts of two lists, one behind the other, are those of the first and then
/// those of the second; of several faults the first is told.
pub proof fn parts_are_read_in_order(
    a: Seq<ManifestListEntryDtoView>,
    b: Seq<ManifestListEntryDtoView>,
)
    ensures
        match (entries_parsed(a), entries_parsed(b)) {
            (Err(e), _) => entries_parsed(a + b) == Err::<
                Seq<ManifestListEntryView>,
                ListParseErrorView,
            >(e),
            (_, Err(e)) => entries_parsed(a + b) == Err::<
                Seq<ManifestListEntryView>,
                ListParseErrorView,
            >(e),
            (Ok(x), Ok(y)) => entries_parsed(a + b) == Ok::<
                Seq<ManifestListEntryView>,
                ListParseErrorView,
            >(x + y),
        },
    decreases b.len(),
{
    if b.len() == 0 {
        assert(a + b =~= a);
        if entries_parsed(a) is Ok {
            let x = entries_parsed(a)->Ok_0;
            assert(x + Seq::<ManifestListEntryView>::empty() =~= x);
        }
    } else {
        parts_are_read_in_order(a, b.drop_last());
        assert((a + b).drop_last() =~= a + b.drop_last());
        assert((a + b).last() == b.last());
        let one = entry_parsed(b.last());
        if entries_parsed(a) is Ok && entries_parsed(b.drop_last()) is Ok && one is Ok {
            let x = entries_parsed(a)->Ok_0;
            let y = entries_parsed(b.drop_last())->Ok_0;
            assert((x + y).push(one->Ok_0) =~= x + y.push(one->Ok_0));
        }
    }
}

/// The boundaries of two lists, one behind the other, are those of the first and
/// then those of the second; of several faults the first is told.
pub proof fn boundaries_are_read_in_order(a: Seq<Seq<char>>, b: Seq<Seq<char>>)
    ensures
        match (boundaries_parsed(a), boundaries_parsed(b)) {
            (Err(e), _) => boundaries_parsed(a + b) == Err::<Seq<Seq<u8>>, ListParseErrorView>(e),
            (_, Err(e)) => boundaries_parsed(a + b) == Err::<Seq<Seq<u8>>, ListParseErrorView>(e),
            (Ok(x), Ok(y)) => boundaries_parsed(a + b) == Ok::<Seq<Seq<u8>>, ListParseErrorView>(
                x + y,
            ),
        },
    decreases b.len(),
{
    if b.len() == 0 {
        assert(a + b =~= a);
        if boundaries_parsed(a) is Ok {
            let x = boundaries_parsed(a)->Ok_0;
            assert(x + Seq::<Seq<u8>>::empty() =~= x);
        }
    } else {
        boundaries_are_read_in_order(a, b.drop_last());
        assert((a + b).drop_last() =~= a + b.drop_last());
        assert((a + b).last() == b.last());
        let one = b64_parsed(b.last(), "partition_strategy.boundaries"@);
        if boundaries_parsed(a) is Ok && boundaries_parsed(b.drop_last()) is Ok && one is Ok {
            let x = boundaries_parsed(a)->Ok_0;
            let y = boundaries_parsed(b.drop_last())->Ok_0;
            assert((x + y).push(one->Ok_0) =~= x + y.push(one->Ok_0));
        }
    }
}

} // verus!
