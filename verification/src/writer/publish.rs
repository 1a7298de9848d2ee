//! From the shards of a commit to the superfiles of the next version.

use std::sync::Arc;
use vstd::prelude::*;

use crate::column_map::{lookup, lookup_after_insert, ColumnMap};
use crate::ids::{is_v4, random_id};
use crate::lex::{bytes_copy, lex_le};
use crate::manifest::bloom::{
    has_bit, is_filter, is_insertion, is_key_bit, is_pow2, key_bits_are_found,
    keys_are_found_by_their_bits, mask_of, may_contain, BloomBuilder,
};
use crate::manifest::entry::{
    FtsSummary, FtsSummaryView, SuperfileEntry, SuperfileUri, VectorSummary, VectorSummaryView,
};
use crate::manifest::list::byte_strings;
use crate::options::{
    id_field, other_columns_are_left, schema_view, vector_names, without_names, FieldView,
    SupertableOptions, SupertableOptionsView, DECIMAL128_PRECISION, DECIMAL128_SCALE,
};
use crate::scalar::{
    alike, batch_columns, columns_at, is_nan, names_of, not_above, opt_value, owned_columns,
    stats_bound_every_value, stats_of, ColumnView, DataType, DataTypeView, ScalarColumn,
    ScalarStatsTable, ScalarValue, TypeKind, ValueView,
};
use crate::share::share;
use crate::writer::batch::{CellsView, Column};
use crate::writer::buffer::{buffer_views, ids_from, BufferedBatch, BufferedView};

verus! {

// ---------------------------------------------------------------- shards

/// What is known of a shard before its superfile is built.
#[derive(Debug)]
pub struct ShardSummary {
    pub n_docs: u64,
    /// Least and greatest id; zero where there is no row.
    pub id_min: i128,
    pub id_max: i128,
    pub scalar_stats: ScalarStatsTable,
}

/// A column as the stats see it: lists have no values to compare.
pub open spec fn stats_column(c: CellsView) -> ColumnView {
    match c {
        CellsView::Scalar(s) => s,
        CellsView::Vectors { data_type, valid, .. } => ColumnView {
            data_type,
            values: Seq::new(valid.len(), |i: int| None),
        },
    }
}

/// The id column of a batch.
pub open spec fn ids_column(ids: Seq<i128>) -> ColumnView {
    ColumnView {
        data_type: id_field(Seq::empty()).data_type,
        values: Seq::new(ids.len(), |i: int| Some(ValueView::Int(ids[i]))),
    }
}

/// The columns of a batch as the stats see them: the ids come first.
pub open spec fn stats_columns(b: BufferedView) -> Seq<ColumnView> {
    seq![ids_column(b.ids)] + Seq::new(b.columns.len(), |i: int| stats_column(b.columns[i]))
}

/// The columns of all batches of a shard.
pub open spec fn shard_columns(s: Seq<BufferedView>) -> Seq<Seq<ColumnView>> {
    Seq::new(s.len(), |i: int| stats_columns(s[i]))
}

/// The names of the scalar columns of a table; the id comes first.
pub open spec fn scalar_names(o: SupertableOptionsView) -> Seq<Seq<char>> {
    let fields = seq![id_field(o.id_column)] + without_names(
        o.schema,
        vector_names(o.vector_columns),
    );
    Seq::new(fields.len(), |i: int| fields[i].name)
}

/// That a value is the least of a list, and another the greatest.
pub open spec fn bounds_of(ids: Seq<i128>, least: i128, greatest: i128) -> bool {
    &&& ids.contains(least)
    &&& ids.contains(greatest)
    &&& forall|i: int| 0 <= i < ids.len() ==> least <= #[trigger] ids[i] <= greatest
}

fn make_ids_column(ids: &Vec<i128>) -> (r: ScalarColumn)
    ensures
        r@ == ids_column(ids@),
{
    let mut values: Vec<Option<ScalarValue>> = Vec::new();
    let mut i: usize = 0;
    while i < ids.len()
        invariant
            i <= ids@.len(),
            values@.len() == i,
            forall|k: int|
                0 <= k < i ==> opt_value(#[trigger] values@[k]) == Some(ValueView::Int(ids@[k])),
        decreases ids@.len() - i,
    {
        values.push(Some(ScalarValue::Int(ids[i])));
        i = i + 1;
    }
    let r = ScalarColumn {
        data_type: DataType {
            kind: TypeKind::Decimal128 {
                precision: DECIMAL128_PRECISION,
                scale: DECIMAL128_SCALE,
            },
            name: "Decimal128(38, 0)".to_string(),
        },
        values,
    };
    assert(r@.values =~= ids_column(ids@).values);
    r
}

fn make_stats_column(c: &Column) -> (r: ScalarColumn)
    ensures
        r@ == stats_column(c@),
{
    match c {
        Column::Scalar(s) => s.clone(),
        Column::Vectors(v) => {
            let mut values: Vec<Option<ScalarValue>> = Vec::new();
            let mut i: usize = 0;
            while i < v.valid.len()
                invariant
                    i <= v.valid@.len(),
                    values@.len() == i,
                    forall|k: int| 0 <= k < i ==> (#[trigger] values@[k]) is None,
                decreases v.valid@.len() - i,
            {
                values.push(None);
                i = i + 1;
            }
            let r = ScalarColumn { data_type: v.data_type.clone(), values };
            assert(r@.values =~= stats_column(c@).values);
            r
        },
    }
}

fn make_stats_columns(b: &BufferedBatch) -> (r: Vec<ScalarColumn>)
    ensures
        owned_columns(r@) == stats_columns(b@),
{
    let mut out: Vec<ScalarColumn> = Vec::new();
    out.push(make_ids_column(&b.ids));
    let mut i: usize = 0;
    while i < b.columns.len()
        invariant
            i <= b.columns@.len(),
            out@.len() == i + 1,
            out@[0]@ == ids_column(b.ids@),
            forall|k: int|
                0 <= k < i ==> (#[trigger] out@[k + 1])@ == stats_column(b.columns@[k]@),
        decreases b.columns@.len() - i,
    {
        out.push(make_stats_column(&b.columns[i]));
        i = i + 1;
    }
    proof {
        let v = owned_columns(out@);
        let w = stats_columns(b@);
        assert forall|k: int| 0 <= k < v.len() implies v[k] == w[k] by {
            if k > 0 {
                assert(out@[(k - 1) + 1]@ == stats_column(b.columns@[k - 1]@));
            }
        }
        assert(v =~= w);
    }
    out
}

proof fn lemma_ids_from_push(s: Seq<BufferedView>, n: int, k: int)
    requires
        0 <= k <= n < s.len(),
    ensures
        ids_from(s.take(n + 1), k) == ids_from(s.take(n), k) + s[n].ids,
    decreases n - k,
{
    let a = s.take(n + 1);
    let b = s.take(n);
    if k < n {
        lemma_ids_from_push(s, n, k + 1);
        assert(a[k] == b[k]);
        assert(a[k].ids + (ids_from(b, k + 1) + s[n].ids) =~= (b[k].ids + ids_from(b, k + 1))
            + s[n].ids);
    } else {
        assert(a[n] == s[n]);
        assert(ids_from(a, n + 1) =~= Seq::empty());
        assert(ids_from(b, n) =~= Seq::empty());
        assert(s[n].ids + Seq::<i128>::empty() =~= Seq::<i128>::empty() + s[n].ids);
    }
}

/// What is known of a shard: its rows, the range of their ids, and the extremes
/// of its columns.
pub fn summarize_shard(options: &SupertableOptions, slice: &[BufferedBatch]) -> (r: ShardSummary)
    requires
        forall|i: int|
            0 <= i < slice@.len() ==> (#[trigger] slice@[i])@.columns.len() + 1 >= scalar_names(
                options@,
            ).len(),
        ids_from(buffer_views(slice@), 0).len() <= u64::MAX,
    ensures
        ({
            let ids = ids_from(buffer_views(slice@), 0);
            &&& r.n_docs == ids.len()
            &&& ids.len() == 0 ==> r.id_min == 0 && r.id_max == 0
            &&& ids.len() > 0 ==> bounds_of(ids, r.id_min, r.id_max)
        }),
        r.scalar_stats@ == stats_of(
            scalar_names(options@),
            shard_columns(buffer_views(slice@)),
            scalar_names(options@).len(),
        ),
{
    let ghost v = buffer_views(slice@);
    let ghost all = ids_from(v, 0);
    let fields = options.scalar_schema();
    let mut names: Vec<String> = Vec::new();
    let mut f: usize = 0;
    while f < fields.len()
        invariant
            f <= fields@.len(),
            names@.len() == f,
            forall|k: int| 0 <= k < f ==> (#[trigger] names@[k])@ == fields@[k].name@,
        decreases fields@.len() - f,
    {
        names.push(fields[f].name.clone());
        f = f + 1;
    }
    proof {
        assert(names_of(names@) =~= scalar_names(options@)) by {
            assert forall|k: int| 0 <= k < names@.len() implies names_of(names@)[k]
                == scalar_names(options@)[k] by {
                assert(schema_view(fields@)[k] == fields@[k]@);
            }
        }
    }
    let mut batches: Vec<Vec<ScalarColumn>> = Vec::new();
    let mut n_docs: u64 = 0;
    let mut range: Option<(i128, i128)> = None;
    let mut i: usize = 0;
    proof {
        assert(v.take(0) =~= Seq::empty());
    }
    while i < slice.len()
        invariant
            i <= slice@.len(),
            v == buffer_views(slice@),
            all == ids_from(v, 0),
            all.len() <= u64::MAX,
            names_of(names@) == scalar_names(options@),
            forall|k: int|
                0 <= k < slice@.len() ==> (#[trigger] slice@[k])@.columns.len() + 1
                    >= scalar_names(options@).len(),
            n_docs == ids_from(v.take(i as int), 0).len(),
            match range {
                None => ids_from(v.take(i as int), 0).len() == 0,
                Some(p) => bounds_of(ids_from(v.take(i as int), 0), p.0, p.1),
            },
            batches@.len() == i,
            forall|k: int|
                0 <= k < i ==> owned_columns((#[trigger] batches@[k])@) == stats_columns(
                    slice@[k]@,
                ),
        decreases slice@.len() - i,
    {
        let ghost before = ids_from(v.take(i as int), 0);
        let ghost ids = slice@[i as int].ids@;
        let b = &slice[i];
        proof {
            lemma_ids_from_push(v, i as int, 0);
            assert(v[i as int].ids == ids);
            lemma_ids_from_prefix(v, i as int + 1);
            assert((before + ids).take(before.len() as int) =~= before);
        }
        let mut j: usize = 0;
        while j < b.ids.len()
            invariant
                j <= ids.len(),
                ids == b.ids@,
                match range {
                    None => before.len() + j == 0,
                    Some(p) => bounds_of((before + ids).take(before.len() + j), p.0, p.1),
                },
            decreases ids.len() - j,
        {
            let x: i128 = b.ids[j];
            let ghost so_far = (before + ids).take(before.len() + j);
            let next: (i128, i128) = match range {
                None => (x, x),
                Some(p) => (
                    if x < p.0 {
                        x
                    } else {
                        p.0
                    },
                    if x > p.1 {
                        x
                    } else {
                        p.1
                    },
                ),
            };
            proof {
                lemma_bounds_grow(so_far, range, x, next);
                assert((before + ids).take(before.len() + j + 1) =~= so_far.push(x));
            }
            range = Some(next);
            j = j + 1;
        }
        proof {
            assert((before + ids).take(before.len() + j) =~= before + ids);
        }
        let n_here: usize = b.ids.len();
        n_docs = n_docs + n_here as u64;
        batches.push(make_stats_columns(b));
        i = i + 1;
    }
    proof {
        assert(v.take(i as int) =~= v);
        assert(batch_columns(batches@) =~= shard_columns(v)) by {
            assert forall|k: int| 0 <= k < batches@.len() implies batch_columns(batches@)[k]
                == shard_columns(v)[k] by {
                assert(owned_columns(batches@[k]@) == stats_columns(slice@[k]@));
            }
        }
        assert forall|k: int| 0 <= k < batches@.len() implies #[trigger] batches@[k]@.len()
            >= names@.len() by {
            assert(owned_columns(batches@[k]@) == stats_columns(slice@[k]@));
            assert(owned_columns(batches@[k]@).len() == batches@[k]@.len());
            assert(names_of(names@).len() == names@.len());
        }
        assert(names_of(names@).len() == names@.len());
    }
    let scalar_stats = ScalarStatsTable::from_batches(names.as_slice(), batches.as_slice());
    let (id_min, id_max) = match range {
        None => (0, 0),
        Some(p) => p,
    };
    ShardSummary { n_docs, id_min, id_max, scalar_stats }
}

proof fn lemma_ids_from_prefix(s: Seq<BufferedView>, n: int)
    requires
        0 <= n <= s.len(),
    ensures
        ids_from(s.take(n), 0).len() <= ids_from(s, 0).len(),
    decreases s.len() - n,
{
    if n < s.len() {
        lemma_ids_from_push(s, n, 0);
        lemma_ids_from_prefix(s, n + 1);
    } else {
        assert(s.take(n) =~= s);
    }
}

proof fn lemma_bounds_grow(
    s: Seq<i128>,
    range: Option<(i128, i128)>,
    x: i128,
    next: (i128, i128),
)
    requires
        match range {
            None => s.len() == 0 && next == (x, x),
            Some(p) => bounds_of(s, p.0, p.1) && next.0 == (if x < p.0 {
                x
            } else {
                p.0
            }) && next.1 == (if x > p.1 {
                x
            } else {
                p.1
            }),
        },
    ensures
        bounds_of(s.push(x), next.0, next.1),
{
    let t = s.push(x);
    assert(t[s.len() as int] == x);
    match range {
        None => {},
        Some(p) => {
            let i = choose|i: int| 0 <= i < s.len() && s[i] == p.0;
            let j = choose|j: int| 0 <= j < s.len() && s[j] == p.1;
            assert(t[i] == p.0);
            assert(t[j] == p.1);
        },
    }
}

// ---------------------------------------------------------------- terms

/// That a filter is that of the terms: it has the bits of the terms and no
/// others.
pub open spec fn is_filter_of(bytes: Seq<u8>, terms: Seq<Seq<u8>>) -> bool {
    &&& bytes.len() == 65536
    &&& forall|p: int|
        0 <= p < 8 * bytes.len() ==> (#[trigger] has_bit(bytes, p) <==> some_key_bit(terms, p))
}

/// That one of the terms has the bit.
pub open spec fn some_key_bit(terms: Seq<Seq<u8>>, p: int) -> bool {
    exists|t: int| 0 <= t < terms.len() && is_key_bit(#[trigger] terms[t], mask_of(1024), p)
}

/// That terms come in ascending order.
pub open spec fn terms_ascend(terms: Seq<Seq<u8>>) -> bool {
    forall|i: int, j: int|
        0 <= i <= j < terms.len() ==> lex_le(#[trigger] terms[i], #[trigger] terms[j])
}

/// That a summary is that of the terms, which come in ascending order.
pub open spec fn summarizes(s: FtsSummaryView, terms: Seq<Seq<u8>>) -> bool {
    &&& is_filter_of(s.term_bloom, terms)
    &&& s.n_terms_distinct == (terms.len() as usize) as u32
    &&& s.term_range == if terms.len() == 0 {
        (Seq::empty(), Seq::empty())
    } else {
        (terms[0], terms.last())
    }
}

proof fn lemma_one_more_term(
    before: Seq<u8>,
    after: Seq<u8>,
    terms: Seq<Seq<u8>>,
    n: int,
)
    requires
        0 <= n < terms.len(),
        is_filter_of(before, terms.take(n)),
        is_insertion(before, after, terms[n]),
    ensures
        is_filter_of(after, terms.take(n + 1)),
{
    let a = terms.take(n);
    let b = terms.take(n + 1);
    assert forall|p: int| 0 <= p < 8 * after.len() implies (#[trigger] has_bit(after, p)
        <==> some_key_bit(b, p)) by {
        if some_key_bit(a, p) {
            let t = choose|t: int|
                0 <= t < a.len() && is_key_bit(#[trigger] a[t], mask_of(1024), p);
            assert(is_key_bit(b[t], mask_of(1024), p));
        }
        if is_key_bit(terms[n], mask_of(1024), p) {
            assert(is_key_bit(b[n], mask_of(1024), p));
        }
        if some_key_bit(b, p) {
            let t = choose|t: int|
                0 <= t < b.len() && is_key_bit(#[trigger] b[t], mask_of(1024), p);
            if t < n {
                assert(is_key_bit(a[t], mask_of(1024), p));
            }
        }
        assert(has_bit(before, p) <==> some_key_bit(a, p));
    }
}

/// The summary of a column's terms, which are in ascending order.
pub fn summarize_terms(terms: &Vec<Vec<u8>>) -> (r: FtsSummary)
    ensures
        summarizes(r@, byte_strings(terms@)),
{
    let ghost v = byte_strings(terms@);
    let n: usize = terms.len();
    let mut builder = BloomBuilder::new();
    proof {
        assert forall|p: int| 0 <= p < 8 * builder@.len() implies (#[trigger] has_bit(builder@, p)
            <==> some_key_bit(v.take(0), p)) by {
            let b = builder@[p / 8];
            let k = (p % 8) as u8;
            assert((0u8 >> k) & 1 == 0) by (bit_vector);
        }
    }
    let mut i: usize = 0;
    while i < n
        invariant
            n == terms@.len(),
            i <= n,
            v == byte_strings(terms@),
            builder.wf(),
            is_filter_of(builder@, v.take(i as int)),
        decreases n - i,
    {
        let ghost before = builder@;
        builder.insert(terms[i].as_slice());
        proof {
            lemma_one_more_term(before, builder@, v, i as int);
        }
        i = i + 1;
    }
    proof {
        assert(v.take(i as int) =~= v);
    }
    let term_range = if n == 0 {
        (Vec::new(), Vec::new())
    } else {
        (bytes_copy(terms[0].as_slice()), bytes_copy(terms[n - 1].as_slice()))
    };
    FtsSummary { term_bloom: builder.finish(), n_terms_distinct: n as u32, term_range }
}

/// Every term of a column passes the filter of its summary and lies in its
/// range: a query for it does not leave the superfile out.
pub proof fn summary_admits_terms(s: FtsSummaryView, terms: Seq<Seq<u8>>, t: int)
    requires
        summarizes(s, terms),
        terms_ascend(terms),
        0 <= t < terms.len(),
    ensures
        may_contain(s.term_bloom, mask_of(s.term_bloom.len() / 64), terms[t]),
        lex_le(s.term_range.0, terms[t]),
        lex_le(terms[t], s.term_range.1),
{
    assert(is_filter(s.term_bloom)) by {
        reveal_with_fuel(is_pow2, 12);
    }
    assert forall|p: int|
        0 <= p < 8 * s.term_bloom.len() && is_key_bit(terms[t], mask_of(1024), p) implies has_bit(
        s.term_bloom,
        p,
    ) by {
        assert(some_key_bit(terms, p));
    }
    key_bits_are_found(s.term_bloom, terms[t]);
    assert(lex_le(terms[0], terms[t]));
    assert(lex_le(terms[t], terms[terms.len() - 1]));
}

// ---------------------------------------------------------------- superfiles

/// Where the bytes of a superfile go.
#[derive(Clone, Copy, PartialEq, Eq, Structural, Debug)]
pub struct Disposition {
    /// Into the readers that are held in memory.
    pub store: bool,
    /// To the storage.
    pub storage: bool,
    /// Into the disk cache.
    pub cache: bool,
}

/// Where bytes go: to the storage where there is one; into the disk cache where
/// that and a storage are there, and else into memory.
pub fn disposition(has_storage: bool, has_disk_cache: bool) -> (r: Disposition)
    ensures
        r.storage == has_storage,
        r.cache == (has_storage && has_disk_cache),
        r.store == !r.cache,
{
    let cached = has_storage && has_disk_cache;
    Disposition { store: !cached, storage: has_storage, cache: cached }
}

/// Bytes always have somewhere to go, and stay in memory only where nothing
/// else keeps them near.
pub proof fn bytes_are_kept(d: Disposition, has_storage: bool, has_disk_cache: bool)
    requires
        d.storage == has_storage,
        d.cache == (has_storage && has_disk_cache),
        d.store == !d.cache,
    ensures
        d.store || (d.storage && d.cache),
{
}

/// A superfile that is built, and where its bytes go.
#[derive(Debug)]
pub struct PreparedSegment {
    pub entry: Arc<SuperfileEntry>,
    pub disposition: Disposition,
}

/// That names do not repeat.
pub open spec fn distinct_names(s: Seq<Seq<char>>) -> bool {
    forall|i: int, j: int| 0 <= i < j < s.len() ==> #[trigger] s[i] != #[trigger] s[j]
}

/// That a map holds, under each of the first `n` names, the summary of its
/// terms, and nothing else.
pub open spec fn terms_summarized(
    m: Seq<(Seq<char>, FtsSummaryView)>,
    names: Seq<Seq<char>>,
    terms: Seq<Vec<Vec<u8>>>,
    n: int,
) -> bool {
    &&& forall|i: int|
        0 <= i < n ==> (lookup(m, #[trigger] names[i]) matches Some(s) && summarizes(
            s,
            byte_strings(terms[i]@),
        ))
    &&& forall|c: Seq<char>|
        (forall|i: int| 0 <= i < n ==> #[trigger] names[i] != c) ==> #[trigger] lookup(m, c) is None
}

/// That a map holds, under each of the first `n` names, the sphere that is
/// known, and nothing else.
pub open spec fn vectors_summarized(
    m: Seq<(Seq<char>, VectorSummaryView)>,
    names: Seq<Seq<char>>,
    spheres: Seq<Option<VectorSummary>>,
    n: int,
) -> bool {
    &&& forall|i: int|
        0 <= i < n ==> lookup(m, #[trigger] names[i]) == match spheres[i] {
            Some(s) => Some(s@),
            None => None,
        }
    &&& forall|c: Seq<char>|
        (forall|i: int| 0 <= i < n ==> #[trigger] names[i] != c) ==> #[trigger] lookup(m, c) is None
}

fn fts_summaries(options: &SupertableOptions, terms: &Vec<Vec<Vec<u8>>>) -> (r: ColumnMap<
    FtsSummary,
>)
    requires
        distinct_names(options@.fts_columns),
        terms@.len() == options@.fts_columns.len(),
    ensures
        terms_summarized(r@, options@.fts_columns, terms@, terms@.len() as int),
{
    let ghost names = options@.fts_columns;
    let mut m: ColumnMap<FtsSummary> = ColumnMap::new();
    let mut i: usize = 0;
    while i < options.fts_columns.len()
        invariant
            i <= options.fts_columns@.len(),
            names == options@.fts_columns,
            distinct_names(names),
            terms@.len() == names.len(),
            names.len() == options.fts_columns@.len(),
            terms_summarized(m@, names, terms@, i as int),
        decreases options.fts_columns@.len() - i,
    {
        let ghost before = m@;
        let s = summarize_terms(&terms[i]);
        m.note_ascending();
        let ghost sv = s@;
        m.insert(options.fts_columns[i].column.clone(), s);
        proof {
            assert(names[i as int] == options.fts_columns@[i as int]@);
            assert forall|c: Seq<char>| #[trigger]
                lookup(m@, c) == (if c == names[i as int] {
                    Some(sv)
                } else {
                    lookup(before, c)
                }) by {
                lookup_after_insert(before, names[i as int], sv, c);
            }
            assert forall|k: int| 0 <= k < i + 1 implies (lookup(m@, #[trigger] names[k]) matches Some(
                s,
            ) && summarizes(s, byte_strings(terms@[k]@))) by {
                if k < i {
                    assert(names[k] != names[i as int]);
                }
            }
            assert forall|c: Seq<char>|
                (forall|k: int| 0 <= k < i + 1 ==> #[trigger] names[k] != c) implies #[trigger] lookup(
                m@,
                c,
            ) is None by {
                assert(names[i as int] != c);
                assert forall|k: int| 0 <= k < i implies #[trigger] names[k] != c by {}
            }
        }
        i = i + 1;
    }
    m
}

fn vector_summaries(options: &SupertableOptions, spheres: &Vec<Option<VectorSummary>>) -> (r:
    ColumnMap<VectorSummary>)
    requires
        distinct_names(vector_names(options@.vector_columns)),
        spheres@.len() == options@.vector_columns.len(),
    ensures
        vectors_summarized(
            r@,
            vector_names(options@.vector_columns),
            spheres@,
            spheres@.len() as int,
        ),
{
    let ghost names = vector_names(options@.vector_columns);
    let mut m: ColumnMap<VectorSummary> = ColumnMap::new();
    let mut i: usize = 0;
    while i < options.vector_columns.len()
        invariant
            i <= options.vector_columns@.len(),
            names == vector_names(options@.vector_columns),
            distinct_names(names),
            spheres@.len() == names.len(),
            names.len() == options.vector_columns@.len(),
            vectors_summarized(m@, names, spheres@, i as int),
        decreases options.vector_columns@.len() - i,
    {
        let ghost before = m@;
        let ghost name = names[i as int];
        proof {
            assert(name == options.vector_columns@[i as int].column@);
            assert(lookup(before, name) is None) by {
                assert forall|k: int| 0 <= k < i implies #[trigger] names[k] != name by {}
            }
        }
        m.note_ascending();
        match &spheres[i] {
            Some(s) => {
                let copy = s.clone();
                m.insert(options.vector_columns[i].column.clone(), copy);
                proof {
                    assert forall|c: Seq<char>| #[trigger]
                        lookup(m@, c) == (if c == name {
                            Some(copy@)
                        } else {
                            lookup(before, c)
                        }) by {
                        lookup_after_insert(before, name, copy@, c);
                    }
                }
            },
            None => {},
        }
        proof {
            assert forall|k: int| 0 <= k < i + 1 implies lookup(m@, #[trigger] names[k]) == (
            match spheres@[k] {
                Some(s) => Some(s@),
                None => None,
            }) by {
                if k < i {
                    assert(names[k] != name);
                }
            }
            assert forall|c: Seq<char>|
                (forall|k: int| 0 <= k < i + 1 ==> #[trigger] names[k] != c) implies #[trigger] lookup(
                m@,
                c,
            ) is None by {
                assert(names[i as int] != c);
                assert forall|k: int| 0 <= k < i implies #[trigger] names[k] != c by {}
            }
        }
        i = i + 1;
    }
    m
}

/// The superfile of a shard and where its bytes go. A shard without rows makes
/// none. `terms` are the terms of each full-text column where the superfile has
/// an index of them, `spheres` what is known of each vector column where it has
/// one of those.
pub fn prepare_segment(
    options: &SupertableOptions,
    shard: ShardSummary,
    terms: Option<Vec<Vec<Vec<u8>>>>,
    spheres: Option<Vec<Option<VectorSummary>>>,
    has_storage: bool,
    has_disk_cache: bool,
) -> (r: Option<PreparedSegment>)
    requires
        distinct_names(options@.fts_columns),
        distinct_names(vector_names(options@.vector_columns)),
        terms matches Some(t) ==> t@.len() == options@.fts_columns.len(),
        spheres matches Some(s) ==> s@.len() == options@.vector_columns.len(),
    ensures
        shard.n_docs == 0 <==> r is None,
        r matches Some(p) ==> {
            let e = p.entry@;
            &&& is_v4(e.superfile_id)
            &&& is_v4(e.uri.0)
            &&& e.n_docs == shard.n_docs
            &&& e.id_min == shard.id_min
            &&& e.id_max == shard.id_max
            &&& e.scalar_stats == shard.scalar_stats@
            &&& match terms {
                Some(t) => terms_summarized(
                    e.fts_summary,
                    options@.fts_columns,
                    t@,
                    t@.len() as int,
                ),
                None => e.fts_summary.len() == 0,
            }
            &&& match spheres {
                Some(s) => vectors_summarized(
                    e.vector_summary,
                    vector_names(options@.vector_columns),
                    s@,
                    s@.len() as int,
                ),
                None => e.vector_summary.len() == 0,
            }
            &&& e.partition_key.len() == 0
            &&& e.partition_hint is None
            &&& p.disposition.storage == has_storage
            &&& p.disposition.cache == (has_storage && has_disk_cache)
            &&& p.disposition.store == !p.disposition.cache
        },
{
    if shard.n_docs == 0 {
        return None;
    }
    let uri = SuperfileUri::new_v4();
    let fts_summary = match &terms {
        Some(t) => fts_summaries(options, t),
        None => ColumnMap::new(),
    };
    let vector_summary = match &spheres {
        Some(s) => vector_summaries(options, s),
        None => ColumnMap::new(),
    };
    let entry = SuperfileEntry {
        superfile_id: random_id(),
        uri,
        n_docs: shard.n_docs,
        id_min: shard.id_min,
        id_max: shard.id_max,
        scalar_stats: shard.scalar_stats,
        fts_summary,
        vector_summary,
        partition_key: Vec::new(),
        partition_hint: None,
    };
    Some(
        PreparedSegment {
            entry: Arc::new(entry),
            disposition: disposition(has_storage, has_disk_cache),
        },
    )
}

// ---------------------------------------------------------------- publishing

/// The new superfiles: those of the shards that had rows, in their order.
pub open spec fn prepared_entries(prepared: Seq<Option<PreparedSegment>>) -> Seq<
    Arc<SuperfileEntry>,
>
    decreases prepared.len(),
{
    if prepared.len() == 0 {
        Seq::empty()
    } else {
        let rest = prepared_entries(prepared.drop_last());
        match prepared.last() {
            Some(p) => rest.push(p.entry),
            None => rest,
        }
    }
}

/// The new superfiles of a commit.
pub fn new_entries(prepared: &Vec<Option<PreparedSegment>>) -> (r: Vec<Arc<SuperfileEntry>>)
    ensures
        r@ == prepared_entries(prepared@),
{
    let mut out: Vec<Arc<SuperfileEntry>> = Vec::new();
    let mut i: usize = 0;
    assert(prepared@.take(0) =~= Seq::empty());
    while i < prepared.len()
        invariant
            i <= prepared@.len(),
            out@ == prepared_entries(prepared@.take(i as int)),
        decreases prepared@.len() - i,
    {
        proof {
            assert(prepared@.take(i as int + 1).drop_last() =~= prepared@.take(i as int));
            assert(prepared@.take(i as int + 1).last() == prepared@[i as int]);
        }
        match &prepared[i] {
            Some(p) => {
                out.push(share(&p.entry));
            },
            None => {},
        }
        i = i + 1;
    }
    assert(prepared@.take(i as int) =~= prepared@);
    out
}

/// What makes the new superfiles visible.
#[derive(Clone, Copy, PartialEq, Eq, Structural, Debug)]
pub enum PublishAction {
    /// There are none.
    Nothing,
    /// Write superfiles and manifest to the storage; the version in memory
    /// changes only when that succeeded.
    Persist,
    /// Append them to the version in memory.
    Append,
}

/// What makes the new superfiles of a commit visible.
pub fn publish_action(n_entries: usize, has_storage: bool) -> (r: PublishAction)
    ensures
        r is Nothing <==> n_entries == 0,
        r is Persist <==> n_entries > 0 && has_storage,
        r is Append <==> n_entries > 0 && !has_storage,
{
    if n_entries == 0 {
        PublishAction::Nothing
    } else if has_storage {
        PublishAction::Persist
    } else {
        PublishAction::Append
    }
}

// ---------------------------------------------------------------- laws

/// The new superfiles of a commit are those that were prepared, all of them and
/// in their order.
pub proof fn prepared_superfiles_are_published(prepared: Seq<Option<PreparedSegment>>)
    ensures
        prepared_entries(prepared) == prepared.filter(
            |p: Option<PreparedSegment>| p is Some,
        ).map_values(|p: Option<PreparedSegment>| (p->0).entry),
    decreases prepared.len(),
{
    reveal(Seq::filter);
    let there = |p: Option<PreparedSegment>| p is Some;
    let entry = |p: Option<PreparedSegment>| (p->0).entry;
    if prepared.len() > 0 {
        prepared_superfiles_are_published(prepared.drop_last());
        let head = prepared.drop_last().filter(there);
        if prepared.last() is Some {
            assert(head.push(prepared.last()).map_values(entry) =~= head.map_values(entry).push(
                (prepared.last()->0).entry,
            ));
        }
    }
    assert(prepared_entries(prepared) =~= prepared.filter(there).map_values(entry));
}

/// The summary of terms is no wider than it has to be: its ends are terms, every
/// bit of its filter is one of a term, and it counts the terms.
pub proof fn summaries_are_tight(s: FtsSummaryView, terms: Seq<Seq<u8>>, p: int)
    requires
        summarizes(s, terms),
        terms.len() > 0,
    ensures
        terms.contains(s.term_range.0),
        terms.contains(s.term_range.1),
        has_bit(s.term_bloom, p) ==> exists|t: int|
            0 <= t < terms.len() && is_key_bit(#[trigger] terms[t], mask_of(1024), p),
        terms.len() <= u32::MAX ==> s.n_terms_distinct == terms.len(),
{
    assert(terms[0] == s.term_range.0);
    assert(terms[terms.len() - 1] == s.term_range.1);
}

/// A query for a term whose bits the terms of a column do not have leaves its
/// superfile out.
pub proof fn absent_terms_are_left_out(s: FtsSummaryView, terms: Seq<Seq<u8>>, key: Seq<u8>, p: int)
    requires
        summarizes(s, terms),
        is_key_bit(key, mask_of(1024), p),
        forall|t: int|
            0 <= t < terms.len() ==> !is_key_bit(#[trigger] terms[t], mask_of(1024), p),
    ensures
        !may_contain(s.term_bloom, mask_of(s.term_bloom.len() / 64), key),
{
    assert(is_filter(s.term_bloom)) by {
        reveal_with_fuel(is_pow2, 12);
    }
    keys_are_found_by_their_bits(s.term_bloom, key);
    assert(!has_bit(s.term_bloom, p)) by {
        if has_bit(s.term_bloom, p) {
            assert(some_key_bit(terms, p));
        }
    }
}

/// The stats of a shard bound every value of every row: those of a scalar column
/// stand under its name, and those of the ids under the name of the id column.
pub proof fn shard_stats_bound_every_row(
    o: SupertableOptionsView,
    s: Seq<BufferedView>,
    t: DataTypeView,
    b: int,
    c: int,
    row: int,
)
    requires
        distinct_names(scalar_names(o)),
        0 <= b < s.len(),
        0 <= c + 1 < scalar_names(o).len(),
        alike(columns_at(shard_columns(s), c + 1), t),
        c >= 0 ==> c < s[b].columns.len() && (s[b].columns[c] matches CellsView::Scalar(col) && 0
            <= row < col.values.len() && col.values[row] is Some),
        c < 0 ==> c == -1 && 0 <= row < s[b].ids.len(),
    ensures
        ({
            let v = if c < 0 {
                ValueView::Int(s[b].ids[row])
            } else {
                s[b].columns[c]->Scalar_0.values[row]->0
            };
            let stats = lookup(
                stats_of(scalar_names(o), shard_columns(s), scalar_names(o).len()),
                scalar_names(o)[c + 1],
            );
            &&& stats matches Some(p) && p.0.data_type == t && p.1.data_type == t
            &&& (stats->0).0.value matches Some(lo) && (is_nan(t.kind, lo) || is_nan(t.kind, v)
                || not_above(t.kind, lo, v))
            &&& (stats->0).1.value matches Some(hi) && (is_nan(t.kind, hi) || is_nan(t.kind, v)
                || not_above(t.kind, v, hi))
        }),
{
    let names = scalar_names(o);
    let batches = shard_columns(s);
    assert(batches[b] == stats_columns(s[b]));
    if c < 0 {
        assert(batches[b][0] == ids_column(s[b].ids));
    } else {
        assert(batches[b][c + 1] == stats_column(s[b].columns[c]));
    }
    stats_bound_every_value(names, batches, t, c + 1, b, row);
}

/// The names of the scalar columns: that of the ids, and then those of the
/// schema that stand for no vectors, in its order.
pub proof fn scalar_columns_are_named(o: SupertableOptionsView, i: int)
    requires
        0 <= i < scalar_names(o).len(),
    ensures
        scalar_names(o)[0] == o.id_column,
        i > 0 ==> scalar_names(o)[i] == o.schema.filter(
            |f: FieldView| !vector_names(o.vector_columns).contains(f.name),
        )[i - 1].name,
{
    other_columns_are_left(o.schema, vector_names(o.vector_columns));
}

} // verus!
