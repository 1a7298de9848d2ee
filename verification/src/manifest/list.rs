//! The manifest list: the table's configuration and its manifest parts.

use vstd::prelude::*;

use crate::column_map::{ascending, key_lt, lemma_insert_last, ColumnMap};
use crate::lex::bytes_copy;
use crate::manifest::part::{ContentHash, PartId};

verus! {

/// The version stamped into every list that is written.
pub const FORMAT_VERSION: &'static str = "1.0";

// ---------------------------------------------------------------- types

/// A full-text column.
#[derive(Debug)]
pub struct FtsColumnInfo {
    pub column: String,
}

impl View for FtsColumnInfo {
    type V = Seq<char>;

    open spec fn view(&self) -> Seq<char> {
        self.column@
    }
}

impl Clone for FtsColumnInfo {
    fn clone(&self) -> (r: Self)
        ensures
            r@ == self@,
    {
        FtsColumnInfo { column: self.column.clone() }
    }
}

/// A vector column.
#[derive(Debug)]
pub struct VectorColumnInfo {
    pub column: String,
    pub dim: usize,
    pub n_cent: usize,
    pub rot_seed: u64,
    /// `cosine`, `l2sq` or `negdot`.
    pub metric: String,
}

pub struct VectorColumnInfoView {
    pub column: Seq<char>,
    pub dim: nat,
    pub n_cent: nat,
    pub rot_seed: u64,
    pub metric: Seq<char>,
}

impl View for VectorColumnInfo {
    type V = VectorColumnInfoView;

    open spec fn view(&self) -> VectorColumnInfoView {
        VectorColumnInfoView {
            column: self.column@,
            dim: self.dim as nat,
            n_cent: self.n_cent as nat,
            rot_seed: self.rot_seed,
            metric: self.metric@,
        }
    }
}

impl Clone for VectorColumnInfo {
    fn clone(&self) -> (r: Self)
        ensures
            r@ == self@,
    {
        VectorColumnInfo {
            column: self.column.clone(),
            dim: self.dim,
            n_cent: self.n_cent,
            rot_seed: self.rot_seed,
            metric: self.metric.clone(),
        }
    }
}

/// How superfiles are sorted into partitions.
#[derive(Debug)]
pub enum PartitionStrategy {
    /// By the time bucket of a column.
    TimeRange { column: String, granularity_secs: i64 },
    /// By the bucket of a hash.
    Hash { column: String, n_buckets: u32 },
    /// By the boundaries, encoded values, that a column's values lie between.
    ColumnRange { column: String, boundaries: Vec<Vec<u8>> },
}

pub enum PartitionStrategyView {
    TimeRange { column: Seq<char>, granularity_secs: i64 },
    Hash { column: Seq<char>, n_buckets: u32 },
    ColumnRange { column: Seq<char>, boundaries: Seq<Seq<u8>> },
}

/// The byte strings of a list.
pub open spec fn byte_strings(s: Seq<Vec<u8>>) -> Seq<Seq<u8>> {
    Seq::new(s.len(), |i: int| s[i]@)
}

/// The texts of a list.
pub open spec fn texts(s: Seq<String>) -> Seq<Seq<char>> {
    Seq::new(s.len(), |i: int| s[i]@)
}

impl View for PartitionStrategy {
    type V = PartitionStrategyView;

    open spec fn view(&self) -> PartitionStrategyView {
        match *self {
            PartitionStrategy::TimeRange { column, granularity_secs } =>
                PartitionStrategyView::TimeRange { column: column@, granularity_secs },
            PartitionStrategy::Hash { column, n_buckets } => PartitionStrategyView::Hash {
                column: column@,
                n_buckets,
            },
            PartitionStrategy::ColumnRange { column, boundaries } =>
                PartitionStrategyView::ColumnRange {
                column: column@,
                boundaries: byte_strings(boundaries@),
            },
        }
    }
}

/// A copy of a list of byte strings.
pub(crate) fn copy_byte_strings(s: &Vec<Vec<u8>>) -> (r: Vec<Vec<u8>>)
    ensures
        byte_strings(r@) == byte_strings(s@),
{
    let mut r: Vec<Vec<u8>> = Vec::new();
    let mut i: usize = 0;
    while i < s.len()
        invariant
            i <= s@.len(),
            r@.len() == i,
            forall|k: int| 0 <= k < i ==> (#[trigger] r@[k])@ == s@[k]@,
        decreases s@.len() - i,
    {
        r.push(bytes_copy(s[i].as_slice()));
        i = i + 1;
    }
    assert(byte_strings(r@) =~= byte_strings(s@));
    r
}

impl Clone for PartitionStrategy {
    fn clone(&self) -> (r: Self)
        ensures
            r@ == self@,
    {
        match self {
            PartitionStrategy::TimeRange { column, granularity_secs } =>
                PartitionStrategy::TimeRange {
                column: column.clone(),
                granularity_secs: *granularity_secs,
            },
            PartitionStrategy::Hash { column, n_buckets } => PartitionStrategy::Hash {
                column: column.clone(),
                n_buckets: *n_buckets,
            },
            PartitionStrategy::ColumnRange { column, boundaries } =>
                PartitionStrategy::ColumnRange {
                column: column.clone(),
                boundaries: copy_byte_strings(boundaries),
            },
        }
    }
}

/// Least and greatest value of a scalar column over a part, encoded.
#[derive(Debug)]
pub struct ScalarStatsAgg {
    pub min: Vec<u8>,
    pub max: Vec<u8>,
}

pub struct ScalarStatsAggView {
    pub min: Seq<u8>,
    pub max: Seq<u8>,
}

impl View for ScalarStatsAgg {
    type V = ScalarStatsAggView;

    open spec fn view(&self) -> ScalarStatsAggView {
        ScalarStatsAggView { min: self.min@, max: self.max@ }
    }
}

/// Terms of a full-text column over a part. Without filter and range nothing
/// is known.
#[derive(Debug)]
pub struct FtsSummaryAgg {
    pub term_bloom_union: Vec<u8>,
    pub term_bloom_n_blocks: u32,
    pub n_terms_distinct: u64,
    pub term_range_union: Option<(Vec<u8>, Vec<u8>)>,
}

pub struct FtsSummaryAggView {
    pub term_bloom_union: Seq<u8>,
    pub term_bloom_n_blocks: u32,
    pub n_terms_distinct: u64,
    pub term_range_union: Option<(Seq<u8>, Seq<u8>)>,
}

/// The range that an optional pair of byte strings is.
pub open spec fn range_view(r: Option<(Vec<u8>, Vec<u8>)>) -> Option<(Seq<u8>, Seq<u8>)> {
    match r {
        Some(p) => Some((p.0@, p.1@)),
        None => None,
    }
}

impl View for FtsSummaryAgg {
    type V = FtsSummaryAggView;

    open spec fn view(&self) -> FtsSummaryAggView {
        FtsSummaryAggView {
            term_bloom_union: self.term_bloom_union@,
            term_bloom_n_blocks: self.term_bloom_n_blocks,
            n_terms_distinct: self.n_terms_distinct,
            term_range_union: range_view(self.term_range_union),
        }
    }
}

/// A sphere that holds the vectors of a column over a part. The centre is the
/// bytes of its floats, the radius the bit pattern of one.
#[derive(Debug)]
pub struct VectorSummaryAgg {
    pub centroid_envelope: Vec<u8>,
    pub envelope_radius: u32,
}

pub struct VectorSummaryAggView {
    pub centroid_envelope: Seq<u8>,
    pub envelope_radius: u32,
}

impl View for VectorSummaryAgg {
    type V = VectorSummaryAggView;

    open spec fn view(&self) -> VectorSummaryAggView {
        VectorSummaryAggView {
            centroid_envelope: self.centroid_envelope@,
            envelope_radius: self.envelope_radius,
        }
    }
}

impl Default for ScalarStatsAgg {
    fn default() -> (r: Self)
        ensures
            r@.min.len() == 0,
            r@.max.len() == 0,
    {
        ScalarStatsAgg { min: Vec::new(), max: Vec::new() }
    }
}

impl Default for FtsSummaryAgg {
    fn default() -> (r: Self)
        ensures
            r@.term_bloom_union.len() == 0,
            r@.term_bloom_n_blocks == 0,
            r@.n_terms_distinct == 0,
            r@.term_range_union is None,
    {
        FtsSummaryAgg {
            term_bloom_union: Vec::new(),
            term_bloom_n_blocks: 0,
            n_terms_distinct: 0,
            term_range_union: None,
        }
    }
}

impl Default for VectorSummaryAgg {
    fn default() -> (r: Self)
        ensures
            r@.centroid_envelope.len() == 0,
            r@.envelope_radius == 0,
    {
        VectorSummaryAgg { centroid_envelope: Vec::new(), envelope_radius: 0 }
    }
}

impl Clone for ScalarStatsAgg {
    fn clone(&self) -> (r: Self)
        ensures
            r@ == self@,
    {
        ScalarStatsAgg {
            min: bytes_copy(self.min.as_slice()),
            max: bytes_copy(self.max.as_slice()),
        }
    }
}

impl Clone for FtsSummaryAgg {
    fn clone(&self) -> (r: Self)
        ensures
            r@ == self@,
    {
        FtsSummaryAgg {
            term_bloom_union: bytes_copy(self.term_bloom_union.as_slice()),
            term_bloom_n_blocks: self.term_bloom_n_blocks,
            n_terms_distinct: self.n_terms_distinct,
            term_range_union: match &self.term_range_union {
                Some(p) => Some((bytes_copy(p.0.as_slice()), bytes_copy(p.1.as_slice()))),
                None => None,
            },
        }
    }
}

impl Clone for VectorSummaryAgg {
    fn clone(&self) -> (r: Self)
        ensures
            r@ == self@,
    {
        VectorSummaryAgg {
            centroid_envelope: bytes_copy(self.centroid_envelope.as_slice()),
            envelope_radius: self.envelope_radius,
        }
    }
}

/// One manifest part in the list.
#[derive(Debug)]
pub struct ManifestListEntry {
    pub part_id: PartId,
    pub uri: String,
    pub n_superfiles: u64,
    pub size_bytes_compressed: u64,
    pub size_bytes_uncompressed: u64,
    pub content_hash: ContentHash,
    pub partition_key: Vec<u8>,
    pub id_range: (i128, i128),
    pub scalar_stats_agg: ColumnMap<ScalarStatsAgg>,
    pub fts_summary_agg: ColumnMap<FtsSummaryAgg>,
    pub vector_summary_agg: ColumnMap<VectorSummaryAgg>,
}

pub struct ManifestListEntryView {
    pub part_id: PartId,
    pub uri: Seq<char>,
    pub n_superfiles: u64,
    pub size_bytes_compressed: u64,
    pub size_bytes_uncompressed: u64,
    pub content_hash: Seq<u8>,
    pub partition_key: Seq<u8>,
    pub id_range: (i128, i128),
    pub scalar_stats_agg: Seq<(Seq<char>, ScalarStatsAggView)>,
    pub fts_summary_agg: Seq<(Seq<char>, FtsSummaryAggView)>,
    pub vector_summary_agg: Seq<(Seq<char>, VectorSummaryAggView)>,
}

impl View for ManifestListEntry {
    type V = ManifestListEntryView;

    open spec fn view(&self) -> ManifestListEntryView {
        ManifestListEntryView {
            part_id: self.part_id,
            uri: self.uri@,
            n_superfiles: self.n_superfiles,
            size_bytes_compressed: self.size_bytes_compressed,
            size_bytes_uncompressed: self.size_bytes_uncompressed,
            content_hash: self.content_hash@,
            partition_key: self.partition_key@,
            id_range: self.id_range,
            scalar_stats_agg: self.scalar_stats_agg@,
            fts_summary_agg: self.fts_summary_agg@,
            vector_summary_agg: self.vector_summary_agg@,
        }
    }
}

/// Values that can be copied.
pub trait Duplicate: View + Sized {
    /// A copy.
    fn duplicate(&self) -> (r: Self)
        ensures
            r@ == self@,
    ;
}

impl Duplicate for ScalarStatsAgg {
    fn duplicate(&self) -> (r: Self) {
        self.clone()
    }
}

impl Duplicate for FtsSummaryAgg {
    fn duplicate(&self) -> (r: Self) {
        self.clone()
    }
}

impl Duplicate for VectorSummaryAgg {
    fn duplicate(&self) -> (r: Self) {
        self.clone()
    }
}

/// A copy of a map.
pub fn copy_map<V: Duplicate>(m: &ColumnMap<V>) -> (r: ColumnMap<V>)
    ensures
        r@ == m@,
{
    let mut r: ColumnMap<V> = ColumnMap::new();
    m.note_ascending();
    let n: usize = m.len();
    let mut i: usize = 0;
    proof {
        assert(m@.take(0) =~= r@);
    }
    while i < n
        invariant
            n == m@.len(),
            i <= n,
            ascending(m@),
            r@ == m@.take(i as int),
        decreases n - i,
    {
        let ghost before = r@;
        r.insert(m.key_at(i).clone(), m.value_at(i).duplicate());
        proof {
            assert forall|j: int| 0 <= j < before.len() implies key_lt(
                #[trigger] before[j].0,
                m@[i as int].0,
            ) by {
                assert(before[j] == m@[j]);
            }
            lemma_insert_last(before, m@[i as int].0, m@[i as int].1);
            assert(before.push((m@[i as int].0, m@[i as int].1)) =~= m@.take(i as int + 1));
        }
        i = i + 1;
    }
    proof {
        assert(m@.take(i as int) =~= m@);
    }
    r
}

impl Clone for ManifestListEntry {
    fn clone(&self) -> (r: Self)
        ensures
            r@ == self@,
    {
        ManifestListEntry {
            part_id: self.part_id,
            uri: self.uri.clone(),
            n_superfiles: self.n_superfiles,
            size_bytes_compressed: self.size_bytes_compressed,
            size_bytes_uncompressed: self.size_bytes_uncompressed,
            content_hash: self.content_hash,
            partition_key: bytes_copy(self.partition_key.as_slice()),
            id_range: self.id_range,
            scalar_stats_agg: copy_map(&self.scalar_stats_agg),
            fts_summary_agg: copy_map(&self.fts_summary_agg),
            vector_summary_agg: copy_map(&self.vector_summary_agg),
        }
    }
}

/// The manifest list.
#[derive(Debug)]
pub struct ManifestList {
    pub format_version: String,
    /// Grows by one with every commit.
    pub manifest_id: u64,
    /// Hash of the options that the table was made with.
    pub options_hash: ContentHash,
    /// Encoded schema.
    pub schema: Vec<u8>,
    pub id_column: String,
    pub fts_columns: Vec<FtsColumnInfo>,
    pub vector_columns: Vec<VectorColumnInfo>,
    pub partition_strategy: PartitionStrategy,
    /// In the order in which they were committed.
    pub parts: Vec<ManifestListEntry>,
}

pub struct ManifestListView {
    pub format_version: Seq<char>,
    pub manifest_id: u64,
    pub options_hash: Seq<u8>,
    pub schema: Seq<u8>,
    pub id_column: Seq<char>,
    pub fts_columns: Seq<Seq<char>>,
    pub vector_columns: Seq<VectorColumnInfoView>,
    pub partition_strategy: PartitionStrategyView,
    pub parts: Seq<ManifestListEntryView>,
}

/// The full-text columns of a list.
pub open spec fn fts_views(s: Seq<FtsColumnInfo>) -> Seq<Seq<char>> {
    Seq::new(s.len(), |i: int| s[i]@)
}

/// The vector columns of a list.
pub open spec fn vector_views(s: Seq<VectorColumnInfo>) -> Seq<VectorColumnInfoView> {
    Seq::new(s.len(), |i: int| s[i]@)
}

/// The parts of a list.
pub open spec fn part_views(s: Seq<ManifestListEntry>) -> Seq<ManifestListEntryView> {
    Seq::new(s.len(), |i: int| s[i]@)
}

impl View for ManifestList {
    type V = ManifestListView;

    open spec fn view(&self) -> ManifestListView {
        ManifestListView {
            format_version: self.format_version@,
            manifest_id: self.manifest_id,
            options_hash: self.options_hash@,
            schema: self.schema@,
            id_column: self.id_column@,
            fts_columns: fts_views(self.fts_columns@),
            vector_columns: vector_views(self.vector_columns@),
            partition_strategy: self.partition_strategy@,
            parts: part_views(self.parts@),
        }
    }
}

/// Why a text is not a manifest list.
#[derive(Debug)]
pub enum ListParseError {
    Json(String),
    Base64 { field: &'static str, detail: String },
    BadContentHash(String),
    BadPartId(String),
    BadFieldValue(&'static str, String),
    IncompatibleMajorVersion { got: String, supported: String },
}

pub enum ListParseErrorView {
    Json(Seq<char>),
    Base64 { field: Seq<char>, detail: Seq<char> },
    BadContentHash(Seq<char>),
    BadPartId(Seq<char>),
    BadFieldValue(Seq<char>, Seq<char>),
    IncompatibleMajorVersion { got: Seq<char>, supported: Seq<char> },
}

impl View for ListParseError {
    type V = ListParseErrorView;

    open spec fn view(&self) -> ListParseErrorView {
        match *self {
            ListParseError::Json(s) => ListParseErrorView::Json(s@),
            ListParseError::Base64 { field, detail } => ListParseErrorView::Base64 {
                field: field@,
                detail: detail@,
            },
            ListParseError::BadContentHash(s) => ListParseErrorView::BadContentHash(s@),
            ListParseError::BadPartId(s) => ListParseErrorView::BadPartId(s@),
            ListParseError::BadFieldValue(f, s) => ListParseErrorView::BadFieldValue(f@, s@),
            ListParseError::IncompatibleMajorVersion { got, supported } =>
                ListParseErrorView::IncompatibleMajorVersion { got: got@, supported: supported@ },
        }
    }
}

/// Why a list cannot be written.
#[derive(Debug)]
pub enum ListEncodeError {
    Json(String),
}

} // verus!
