//! Superfiles as the manifest records them.

use vstd::prelude::*;

use crate::column_map::{ascending, key_lt, lemma_insert_last, ColumnMap};
use crate::ids::{is_v4, random_id};
use crate::lex::bytes_copy;
use crate::manifest::bloom::Bloom;
use crate::scalar::{Scalar, ScalarStatsTable, ScalarView};

verus! {

/// The key of a superfile's bytes in the stores.
#[derive(Clone, Copy, PartialEq, Eq, Structural, PartialOrd, Ord, Hash, Debug)]
pub struct SuperfileUri(pub u128);

impl SuperfileUri {
    /// A fresh key.
    pub fn new_v4() -> (r: Self)
        ensures
            is_v4(r.0),
    {
        SuperfileUri(random_id())
    }
}

/// What is known of the terms of a full-text column of one superfile.
#[derive(Debug)]
pub struct FtsSummary {
    /// Filter of the terms.
    pub term_bloom: Bloom,
    /// How many distinct terms there are.
    pub n_terms_distinct: u32,
    /// The least and the greatest term.
    pub term_range: (Vec<u8>, Vec<u8>),
}

pub struct FtsSummaryView {
    pub term_bloom: Seq<u8>,
    pub n_terms_distinct: u32,
    pub term_range: (Seq<u8>, Seq<u8>),
}

impl View for FtsSummary {
    type V = FtsSummaryView;

    open spec fn view(&self) -> FtsSummaryView {
        FtsSummaryView {
            term_bloom: self.term_bloom@,
            n_terms_distinct: self.n_terms_distinct,
            term_range: (self.term_range.0@, self.term_range.1@),
        }
    }
}

impl Clone for FtsSummary {
    fn clone(&self) -> (r: Self)
        ensures
            r@ == self@,
    {
        FtsSummary {
            term_bloom: self.term_bloom.clone(),
            n_terms_distinct: self.n_terms_distinct,
            term_range: (
                bytes_copy(self.term_range.0.as_slice()),
                bytes_copy(self.term_range.1.as_slice()),
            ),
        }
    }
}

/// A sphere that holds the vectors of one column of one superfile. Numbers
/// stand as the bit patterns of single-precision floats.
#[derive(Debug)]
pub struct VectorSummary {
    pub centroid: Vec<u32>,
    pub radius: u32,
}

pub struct VectorSummaryView {
    pub centroid: Seq<u32>,
    pub radius: u32,
}

impl View for VectorSummary {
    type V = VectorSummaryView;

    open spec fn view(&self) -> VectorSummaryView {
        VectorSummaryView { centroid: self.centroid@, radius: self.radius }
    }
}

impl Clone for VectorSummary {
    fn clone(&self) -> (r: Self)
        ensures
            r@ == self@,
    {
        let mut centroid: Vec<u32> = Vec::new();
        let mut i: usize = 0;
        while i < self.centroid.len()
            invariant
                i <= self.centroid@.len(),
                centroid@ == self.centroid@.take(i as int),
            decreases self.centroid@.len() - i,
        {
            centroid.push(self.centroid[i]);
            i = i + 1;
            proof {
                assert(self.centroid@.take(i as int) =~= self.centroid@.take(i as int - 1).push(
                    self.centroid@[i as int - 1],
                ));
            }
        }
        proof {
            assert(self.centroid@.take(i as int) =~= self.centroid@);
        }
        VectorSummary { centroid, radius: self.radius }
    }
}

/// One superfile: identity, size and the summaries that queries skip by.
#[derive(Debug)]
pub struct SuperfileEntry {
    /// Identity, for tracing.
    pub superfile_id: u128,
    /// Key of its bytes.
    pub uri: SuperfileUri,
    /// Number of rows.
    pub n_docs: u64,
    /// Least id.
    pub id_min: i128,
    /// Greatest id.
    pub id_max: i128,
    /// Least and greatest value of the scalar columns.
    pub scalar_stats: ScalarStatsTable,
    /// Term summaries of the full-text columns.
    pub fts_summary: ColumnMap<FtsSummary>,
    /// Spheres of the vector columns.
    pub vector_summary: ColumnMap<VectorSummary>,
    /// Encoded partition; empty when unpartitioned.
    pub partition_key: Vec<u8>,
    /// Bucket that the rows were sharded into.
    pub partition_hint: Option<u32>,
}

pub struct SuperfileEntryView {
    pub superfile_id: u128,
    pub uri: SuperfileUri,
    pub n_docs: u64,
    pub id_min: i128,
    pub id_max: i128,
    pub scalar_stats: Seq<(Seq<char>, (ScalarView, ScalarView))>,
    pub fts_summary: Seq<(Seq<char>, FtsSummaryView)>,
    pub vector_summary: Seq<(Seq<char>, VectorSummaryView)>,
    pub partition_key: Seq<u8>,
    pub partition_hint: Option<u32>,
}

impl View for SuperfileEntry {
    type V = SuperfileEntryView;

    open spec fn view(&self) -> SuperfileEntryView {
        SuperfileEntryView {
            superfile_id: self.superfile_id,
            uri: self.uri,
            n_docs: self.n_docs,
            id_min: self.id_min,
            id_max: self.id_max,
            scalar_stats: self.scalar_stats@,
            fts_summary: self.fts_summary@,
            vector_summary: self.vector_summary@,
            partition_key: self.partition_key@,
            partition_hint: self.partition_hint,
        }
    }
}

/// Values that can be had twice.
pub trait Twofold: View + Sized {
    fn again(&self) -> (r: Self)
        ensures
            r@ == self@,
    ;
}

impl Twofold for (Scalar, Scalar) {
    fn again(&self) -> (r: Self) {
        (self.0.clone(), self.1.clone())
    }
}

impl Twofold for FtsSummary {
    fn again(&self) -> (r: Self) {
        self.clone()
    }
}

impl Twofold for VectorSummary {
    fn again(&self) -> (r: Self) {
        self.clone()
    }
}

fn columns_again<T: Twofold>(m: &ColumnMap<T>) -> (r: ColumnMap<T>)
    ensures
        r@ == m@,
{
    m.note_ascending();
    let mut out: ColumnMap<T> = ColumnMap::new();
    let n: usize = m.len();
    let mut i: usize = 0;
    assert(out@ =~= m@.take(0));
    while i < n
        invariant
            n == m@.len(),
            i <= n,
            ascending(m@),
            out@ == m@.take(i as int),
        decreases n - i,
    {
        let key = m.key_at(i).clone();
        let value = m.value_at(i).again();
        proof {
            assert forall|j: int| 0 <= j < out@.len() implies key_lt(
                #[trigger] out@[j].0,
                key@,
            ) by {
                assert(key_lt(m@[j].0, m@[i as int].0));
            }
            lemma_insert_last(out@, key@, value@);
        }
        out.insert(key, value);
        i = i + 1;
        assert(out@ =~= m@.take(i as int));
    }
    assert(m@.take(i as int) =~= m@);
    out
}

impl SuperfileEntry {
    /// The superfile with the partition that it lies in.
    pub fn in_partition(&self, key: Vec<u8>) -> (r: Self)
        ensures
            r@ == (SuperfileEntryView { partition_key: key@, ..self@ }),
    {
        SuperfileEntry {
            superfile_id: self.superfile_id,
            uri: self.uri,
            n_docs: self.n_docs,
            id_min: self.id_min,
            id_max: self.id_max,
            scalar_stats: ScalarStatsTable { cols: columns_again(&self.scalar_stats.cols) },
            fts_summary: columns_again(&self.fts_summary),
            vector_summary: columns_again(&self.vector_summary),
            partition_key: key,
            partition_hint: self.partition_hint,
        }
    }
}

} // verus!
