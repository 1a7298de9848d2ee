//! What is known of a part as a whole, from what is known of its superfiles.

use std::sync::Arc;
use vstd::prelude::*;

use crate::column_map::{
    ascending, lemma_lookup_at, lemma_lookup_some, lookup, lookup_after_insert, ColumnMap,
};
use crate::lex::{bytes_copy, bytes_le, lex_le};
use crate::manifest::bloom::{bytes_or, has_bit, union_has_the_bits_of_both};
use crate::manifest::entry::{FtsSummary, FtsSummaryView, SuperfileEntry, SuperfileEntryView};
use crate::manifest::ipc::{ipc_encode_length1, scalar_stream};
use crate::manifest::list::{
    range_view, FtsSummaryAgg, FtsSummaryAggView, ScalarStatsAgg, ScalarStatsAggView,
    VectorSummaryAgg,
};
use crate::manifest::part::entry_views;
use crate::scalar::{
    column_min_max, column_views, concat_columns, concatenated, extremes, ColumnView, Scalar,
    ScalarColumn, ScalarView, owned_columns, extremes_bound_the_column, value_le, well_typed_column,
    ValueView,
};

verus! {

/// Everything that is known of a part.
#[derive(Debug)]
pub struct AggregateSet {
    pub id_range: (i128, i128),
    pub scalar_stats_agg: ColumnMap<ScalarStatsAgg>,
    pub fts_summary_agg: ColumnMap<FtsSummaryAgg>,
    pub vector_summary_agg: ColumnMap<VectorSummaryAgg>,
}

impl Default for AggregateSet {
    fn default() -> (r: Self)
        ensures
            r.id_range == (0i128, 0i128),
            r.scalar_stats_agg@.len() == 0,
            r.fts_summary_agg@.len() == 0,
            r.vector_summary_agg@.len() == 0,
    {
        AggregateSet {
            id_range: (0, 0),
            scalar_stats_agg: ColumnMap::new(),
            fts_summary_agg: ColumnMap::new(),
            vector_summary_agg: ColumnMap::new(),
        }
    }
}

// ---------------------------------------------------------------- ids

/// The least id of superfiles.
pub open spec fn least_id(s: Seq<SuperfileEntryView>) -> i128
    decreases s.len(),
{
    if s.len() == 0 {
        0
    } else if s.len() == 1 {
        s[0].id_min
    } else {
        let m = least_id(s.drop_last());
        if s.last().id_min < m {
            s.last().id_min
        } else {
            m
        }
    }
}

/// The greatest id of superfiles.
pub open spec fn greatest_id(s: Seq<SuperfileEntryView>) -> i128
    decreases s.len(),
{
    if s.len() == 0 {
        0
    } else if s.len() == 1 {
        s[0].id_max
    } else {
        let m = greatest_id(s.drop_last());
        if s.last().id_max > m {
            s.last().id_max
        } else {
            m
        }
    }
}

/// The range of ids lies around the ids of every superfile, and its ends are
/// ends of superfiles.
pub proof fn id_range_covers(s: Seq<SuperfileEntryView>)
    requires
        s.len() > 0,
    ensures
        forall|i: int|
            0 <= i < s.len() ==> least_id(s) <= (#[trigger] s[i]).id_min && s[i].id_max
                <= greatest_id(s),
        exists|i: int| 0 <= i < s.len() && (#[trigger] s[i]).id_min == least_id(s),
        exists|i: int| 0 <= i < s.len() && (#[trigger] s[i]).id_max == greatest_id(s),
    decreases s.len(),
{
    if s.len() > 1 {
        let t = s.drop_last();
        id_range_covers(t);
        assert forall|i: int| 0 <= i < s.len() implies least_id(s) <= (#[trigger] s[i]).id_min
            && s[i].id_max <= greatest_id(s) by {
            if i < t.len() {
                assert(t[i] == s[i]);
            }
        }
        let a = choose|i: int| 0 <= i < t.len() && (#[trigger] t[i]).id_min == least_id(t);
        let b = choose|i: int| 0 <= i < t.len() && (#[trigger] t[i]).id_max == greatest_id(t);
        assert(s[a] == t[a] && s[b] == t[b]);
        assert(s[s.len() - 1] == s.last());
    }
}

fn id_range(superfiles: &[Arc<SuperfileEntry>]) -> (r: (i128, i128))
    requires
        superfiles@.len() > 0,
    ensures
        r.0 == least_id(entry_views(superfiles@)),
        r.1 == greatest_id(entry_views(superfiles@)),
{
    let ghost v = entry_views(superfiles@);
    let mut lo: i128 = superfiles[0].id_min;
    let mut hi: i128 = superfiles[0].id_max;
    let mut i: usize = 1;
    proof {
        assert(v.take(1)[0] == superfiles@[0]@);
    }
    while i < superfiles.len()
        invariant
            1 <= i <= superfiles@.len(),
            v == entry_views(superfiles@),
            lo == least_id(v.take(i as int)),
            hi == greatest_id(v.take(i as int)),
        decreases superfiles@.len() - i,
    {
        proof {
            assert(v.take(i as int + 1).drop_last() =~= v.take(i as int));
            assert(v.take(i as int + 1).last() == superfiles@[i as int]@);
        }
        if superfiles[i].id_min < lo {
            lo = superfiles[i].id_min;
        }
        if superfiles[i].id_max > hi {
            hi = superfiles[i].id_max;
        }
        i = i + 1;
    }
    proof {
        assert(v.take(i as int) =~= v);
    }
    (lo, hi)
}

// ---------------------------------------------------------------- scalar columns

/// One bound of a column as a column of one row.
pub open spec fn bound_column(b: ScalarView) -> ColumnView {
    ColumnView { data_type: b.data_type, values: seq![b.value] }
}

/// The lower bounds of a column, superfile by superfile.
pub open spec fn lower_bounds(s: Seq<SuperfileEntryView>, col: Seq<char>) -> Seq<ColumnView>
    decreases s.len(),
{
    if s.len() == 0 {
        Seq::empty()
    } else {
        let head = lower_bounds(s.drop_last(), col);
        match lookup(s.last().scalar_stats, col) {
            Some(b) => head.push(bound_column(b.0)),
            None => head,
        }
    }
}

/// The upper bounds of a column, superfile by superfile.
pub open spec fn upper_bounds(s: Seq<SuperfileEntryView>, col: Seq<char>) -> Seq<ColumnView>
    decreases s.len(),
{
    if s.len() == 0 {
        Seq::empty()
    } else {
        let head = upper_bounds(s.drop_last(), col);
        match lookup(s.last().scalar_stats, col) {
            Some(b) => head.push(bound_column(b.1)),
            None => head,
        }
    }
}

/// The least lower bound and the greatest upper bound of a column, if the
/// bounds are of one type that has an order.
pub open spec fn overall_bounds(s: Seq<SuperfileEntryView>, col: Seq<char>) -> Option<
    (ScalarView, ScalarView),
> {
    match (concatenated(lower_bounds(s, col)), concatenated(upper_bounds(s, col))) {
        (Some(a), Some(b)) => match (
            extremes(a.data_type, a.values),
            extremes(b.data_type, b.values),
        ) {
            (Some(x), Some(y)) => Some((x.0, y.1)),
            _ => None,
        },
        _ => None,
    }
}

/// What is known of a scalar column of a part.
pub open spec fn scalar_agg(s: Seq<SuperfileEntryView>, col: Seq<char>) -> Option<
    ScalarStatsAggView,
> {
    match overall_bounds(s, col) {
        None => None,
        Some(b) => match (scalar_stream(col, b.0), scalar_stream(col, b.1)) {
            (Some(min), Some(max)) => Some(ScalarStatsAggView { min, max }),
            _ => None,
        },
    }
}

/// Whether some superfile has bounds of the column.
pub open spec fn has_scalar(s: Seq<SuperfileEntryView>, col: Seq<char>) -> bool {
    exists|k: int| 0 <= k < s.len() && lookup((#[trigger] s[k]).scalar_stats, col) is Some
}

proof fn lemma_no_bounds(s: Seq<SuperfileEntryView>, col: Seq<char>)
    requires
        !has_scalar(s, col),
    ensures
        lower_bounds(s, col).len() == 0,
        scalar_agg(s, col) is None,
    decreases s.len(),
{
    if s.len() > 0 {
        assert(lookup(s[s.len() - 1].scalar_stats, col) is None);
        assert(!has_scalar(s.drop_last(), col)) by {
            if has_scalar(s.drop_last(), col) {
                let k = choose|k: int|
                    0 <= k < s.drop_last().len() && lookup(
                        (#[trigger] s.drop_last()[k]).scalar_stats,
                        col,
                    ) is Some;
                assert(lookup(s[k].scalar_stats, col) is Some);
            }
        }
        lemma_no_bounds(s.drop_last(), col);
    }
}

fn bound_as_column(b: &Scalar) -> (r: ScalarColumn)
    ensures
        r@ == bound_column(b@),
{
    let c = b.clone();
    let ghost want = bound_column(b@);
    let mut values: Vec<Option<crate::scalar::ScalarValue>> = Vec::new();
    values.push(c.value);
    let r = ScalarColumn { data_type: c.data_type, values };
    proof {
        assert(r@.values =~= want.values);
    }
    r
}

fn gather_bounds(superfiles: &[Arc<SuperfileEntry>], col: &str) -> (r: (
    Vec<ScalarColumn>,
    Vec<ScalarColumn>,
))
    ensures
        owned_columns(r.0@) == lower_bounds(entry_views(superfiles@), col@),
        owned_columns(r.1@) == upper_bounds(entry_views(superfiles@), col@),
{
    let ghost v = entry_views(superfiles@);
    let mut lower: Vec<ScalarColumn> = Vec::new();
    let mut upper: Vec<ScalarColumn> = Vec::new();
    let mut i: usize = 0;
    proof {
        assert(v.take(0) =~= Seq::empty());
        assert(owned_columns(lower@) =~= Seq::empty());
        assert(owned_columns(upper@) =~= Seq::empty());
    }
    while i < superfiles.len()
        invariant
            i <= superfiles@.len(),
            v == entry_views(superfiles@),
            owned_columns(lower@) == lower_bounds(v.take(i as int), col@),
            owned_columns(upper@) == upper_bounds(v.take(i as int), col@),
        decreases superfiles@.len() - i,
    {
        proof {
            assert(v.take(i as int + 1).drop_last() =~= v.take(i as int));
            assert(v.take(i as int + 1).last() == superfiles@[i as int]@);
        }
        if let Some(b) = superfiles[i].scalar_stats.cols.get(col) {
            let ghost (x, y) = (owned_columns(lower@), owned_columns(upper@));
            let lo = bound_as_column(&b.0);
            let hi = bound_as_column(&b.1);
            lower.push(lo);
            upper.push(hi);
            proof {
                assert(owned_columns(lower@) =~= x.push(lo@));
                assert(owned_columns(upper@) =~= y.push(hi@));
            }
        }
        i = i + 1;
    }
    proof {
        assert(v.take(i as int) =~= v);
    }
    (lower, upper)
}

fn concat_owned(cols: &Vec<ScalarColumn>) -> (r: Option<ScalarColumn>)
    ensures
        match r {
            Some(c) => concatenated(owned_columns(cols@)) == Some(c@),
            None => concatenated(owned_columns(cols@)) is None,
        },
{
    let mut refs: Vec<&ScalarColumn> = Vec::new();
    let mut i: usize = 0;
    while i < cols.len()
        invariant
            i <= cols@.len(),
            refs@.len() == i,
            forall|k: int| 0 <= k < i ==> *(#[trigger] refs@[k]) == cols@[k],
        decreases cols@.len() - i,
    {
        refs.push(&cols[i]);
        i = i + 1;
    }
    assert(column_views(refs@) =~= owned_columns(cols@));
    concat_columns(refs.as_slice())
}

fn column_agg(superfiles: &[Arc<SuperfileEntry>], col: &str) -> (r: Option<ScalarStatsAgg>)
    ensures
        match r {
            Some(a) => scalar_agg(entry_views(superfiles@), col@) == Some(a@),
            None => scalar_agg(entry_views(superfiles@), col@) is None,
        },
{
    let (lower, upper) = gather_bounds(superfiles, col);
    let a = match concat_owned(&lower) {
        Some(c) => c,
        None => return None,
    };
    let b = match concat_owned(&upper) {
        Some(c) => c,
        None => return None,
    };
    let (min, _) = match column_min_max(&a) {
        Some(p) => p,
        None => return None,
    };
    let (_, max) = match column_min_max(&b) {
        Some(p) => p,
        None => return None,
    };
    let min = match ipc_encode_length1(col, &min) {
        Some(x) => x,
        None => return None,
    };
    let max = match ipc_encode_length1(col, &max) {
        Some(x) => x,
        None => return None,
    };
    Some(ScalarStatsAgg { min, max })
}

fn scalar_columns(superfiles: &[Arc<SuperfileEntry>]) -> (r: ColumnMap<bool>)
    ensures
        forall|c: Seq<char>|
            #[trigger] lookup(r@, c) is Some <==> has_scalar(entry_views(superfiles@), c),
        ascending(r@),
{
    let ghost v = entry_views(superfiles@);
    let mut names: ColumnMap<bool> = ColumnMap::new();
    let mut i: usize = 0;
    while i < superfiles.len()
        invariant
            i <= superfiles@.len(),
            v == entry_views(superfiles@),
            forall|c: Seq<char>|
                #[trigger] lookup(names@, c) is Some <==> has_scalar(v.take(i as int), c),
        decreases superfiles@.len() - i,
    {
        let cols = &superfiles[i].scalar_stats.cols;
        cols.note_ascending();
        let n: usize = cols.len();
        let mut j: usize = 0;
        let ghost head = v.take(i as int);
        while j < n
            invariant
                n == cols@.len(),
                j <= n,
                ascending(cols@),
                forall|c: Seq<char>|
                    #[trigger] lookup(names@, c) is Some <==> (has_scalar(head, c) || exists|k: int|
                        0 <= k < j && (#[trigger] cols@[k]).0 == c),
            decreases n - j,
        {
            let key = cols.key_at(j).clone();
            names.note_ascending();
            let ghost before = names@;
            if !names.contains_key(key.as_str()) {
                names.insert(key, true);
                proof {
                    assert forall|c: Seq<char>|
                        #[trigger] lookup(names@, c) is Some <==> (has_scalar(head, c)
                            || exists|k: int| 0 <= k < j + 1 && (#[trigger] cols@[k]).0 == c) by {
                        lookup_after_insert(before, key@, true, c);
                        if c == key@ {
                            assert(cols@[j as int].0 == c);
                        }
                        if exists|k: int| 0 <= k < j + 1 && (#[trigger] cols@[k]).0 == c {
                            let k = choose|k: int| 0 <= k < j + 1 && (#[trigger] cols@[k]).0 == c;
                            if k < j {
                                assert(lookup(before, c) is Some);
                            }
                        }
                    }
                }
            } else {
                proof {
                    assert forall|c: Seq<char>|
                        #[trigger] lookup(names@, c) is Some <==> (has_scalar(head, c)
                            || exists|k: int| 0 <= k < j + 1 && (#[trigger] cols@[k]).0 == c) by {
                        if exists|k: int| 0 <= k < j + 1 && (#[trigger] cols@[k]).0 == c {
                            let k = choose|k: int| 0 <= k < j + 1 && (#[trigger] cols@[k]).0 == c;
                            if k < j {
                                assert(lookup(before, c) is Some);
                            }
                        }
                    }
                }
            }
            j = j + 1;
        }
        proof {
            let next = v.take(i as int + 1);
            assert(cols@ == v[i as int].scalar_stats);
            assert forall|c: Seq<char>| #[trigger] lookup(names@, c) is Some <==> has_scalar(
                next,
                c,
            ) by {
                lemma_lookup_some(cols@, c);
                if has_scalar(head, c) {
                    let k = choose|k: int|
                        0 <= k < head.len() && lookup((#[trigger] head[k]).scalar_stats, c) is Some;
                    assert(next[k] == head[k]);
                }
                if exists|k: int| 0 <= k < n && (#[trigger] cols@[k]).0 == c {
                    assert(lookup(next[i as int].scalar_stats, c) is Some);
                }
                if has_scalar(next, c) {
                    let k = choose|k: int|
                        0 <= k < next.len() && lookup((#[trigger] next[k]).scalar_stats, c) is Some;
                    if k < i {
                        assert(head[k] == next[k]);
                    }
                }
            }
        }
        i = i + 1;
    }
    proof {
        assert(v.take(i as int) =~= v);
    }
    names.note_ascending();
    names
}

/// What is known of the scalar columns of superfiles.
pub fn scalar_stats_agg(superfiles: &[Arc<SuperfileEntry>]) -> (r: ColumnMap<ScalarStatsAgg>)
    ensures
        forall|c: Seq<char>|
            #[trigger] lookup(r@, c) == scalar_agg(entry_views(superfiles@), c),
{
    let ghost v = entry_views(superfiles@);
    let names = scalar_columns(superfiles);
    let n: usize = names.len();
    let mut out: ColumnMap<ScalarStatsAgg> = ColumnMap::new();
    let mut i: usize = 0;
    while i < n
        invariant
            n == names@.len(),
            i <= n,
            v == entry_views(superfiles@),
            ascending(names@),
            forall|c: Seq<char>|
                #[trigger] lookup(out@, c) == (if exists|k: int|
                    0 <= k < i && (#[trigger] names@[k]).0 == c {
                    scalar_agg(v, c)
                } else {
                    None
                }),
        decreases n - i,
    {
        let key = names.key_at(i).clone();
        out.note_ascending();
        let ghost before = out@;
        proof {
            assert forall|k: int| 0 <= k < i implies (#[trigger] names@[k]).0 != key@ by {
                lemma_lookup_at(names@, k);
                assert(crate::column_map::key_lt(names@[k].0, names@[i as int].0));
                crate::lex::lex_le_reflexive(vstd::utf8::encode_utf8(key@));
            }
        }
        if let Some(a) = column_agg(superfiles, key.as_str()) {
            out.insert(key, a);
            proof {
                assert forall|c: Seq<char>|
                    #[trigger] lookup(out@, c) == (if exists|k: int|
                        0 <= k < i + 1 && (#[trigger] names@[k]).0 == c {
                        scalar_agg(v, c)
                    } else {
                        None
                    }) by {
                    lookup_after_insert(before, key@, a@, c);
                    if c == key@ {
                        assert(names@[i as int].0 == c);
                    } else if exists|k: int| 0 <= k < i + 1 && (#[trigger] names@[k]).0 == c {
                        let k = choose|k: int| 0 <= k < i + 1 && (#[trigger] names@[k]).0 == c;
                        assert(k < i);
                    }
                }
            }
        } else {
            proof {
                assert forall|c: Seq<char>|
                    #[trigger] lookup(out@, c) == (if exists|k: int|
                        0 <= k < i + 1 && (#[trigger] names@[k]).0 == c {
                        scalar_agg(v, c)
                    } else {
                        None
                    }) by {
                    if c == key@ {
                        assert(names@[i as int].0 == c);
                    } else if exists|k: int| 0 <= k < i + 1 && (#[trigger] names@[k]).0 == c {
                        let k = choose|k: int| 0 <= k < i + 1 && (#[trigger] names@[k]).0 == c;
                        assert(k < i);
                    }
                }
            }
        }
        i = i + 1;
    }
    proof {
        assert forall|c: Seq<char>| #[trigger] lookup(out@, c) == scalar_agg(v, c) by {
            lemma_lookup_some(names@, c);
            if !has_scalar(v, c) {
                lemma_no_bounds(v, c);
            } else {
                assert(lookup(names@, c) is Some);
            }
        }
    }
    out
}

// ---------------------------------------------------------------- full-text columns

/// The range of a superfile's terms; none where it has no term.
pub open spec fn term_range(t: FtsSummaryView) -> Option<(Seq<u8>, Seq<u8>)> {
    if t.term_range.0.len() == 0 && t.term_range.1.len() == 0 {
        None
    } else {
        Some(t.term_range)
    }
}

/// The least range around two ranges.
pub open spec fn joined_range(
    a: Option<(Seq<u8>, Seq<u8>)>,
    b: Option<(Seq<u8>, Seq<u8>)>,
) -> Option<(Seq<u8>, Seq<u8>)> {
    match (a, b) {
        (None, b) => b,
        (a, None) => a,
        (Some(a), Some(b)) => Some(
            (
                if lex_le(a.0, b.0) {
                    a.0
                } else {
                    b.0
                },
                if lex_le(b.1, a.1) {
                    a.1
                } else {
                    b.1
                },
            ),
        ),
    }
}

/// The range of the terms of a column over superfiles.
pub open spec fn range_union(s: Seq<SuperfileEntryView>, col: Seq<char>) -> Option<
    (Seq<u8>, Seq<u8>),
>
    decreases s.len(),
{
    if s.len() == 0 {
        None
    } else {
        let head = range_union(s.drop_last(), col);
        match lookup(s.last().fts_summary, col) {
            Some(t) => joined_range(head, term_range(t)),
            None => head,
        }
    }
}

/// Filters put together.
#[verifier::ext_equal]
pub enum FilterUnion {
    /// There was none yet.
    Nothing,
    /// Their union.
    Bytes(Seq<u8>),
    /// They are of different sizes and have none.
    Mixed,
}

/// The union of the filters of a column over superfiles.
pub open spec fn filter_union(s: Seq<SuperfileEntryView>, col: Seq<char>) -> FilterUnion
    decreases s.len(),
{
    if s.len() == 0 {
        FilterUnion::Nothing
    } else {
        let head = filter_union(s.drop_last(), col);
        match lookup(s.last().fts_summary, col) {
            Some(t) => match head {
                FilterUnion::Nothing => FilterUnion::Bytes(t.term_bloom),
                FilterUnion::Bytes(b) => if b.len() == t.term_bloom.len() {
                    FilterUnion::Bytes(bytes_or(b, t.term_bloom))
                } else {
                    FilterUnion::Mixed
                },
                FilterUnion::Mixed => FilterUnion::Mixed,
            },
            None => head,
        }
    }
}

/// Whether some superfile has terms of the column.
pub open spec fn has_fts(s: Seq<SuperfileEntryView>, col: Seq<char>) -> bool {
    exists|k: int| 0 <= k < s.len() && lookup((#[trigger] s[k]).fts_summary, col) is Some
}

/// The blocks of a filter in 32 bits.
pub open spec fn blocks_of(bytes: Seq<u8>) -> u32 {
    ((bytes.len() / 64) % 0x1_0000_0000) as u32
}

/// Whether every one of some superfiles has a summary of the column.
pub open spec fn all_fts(s: Seq<SuperfileEntryView>, col: Seq<char>) -> bool {
    &&& s.len() > 0
    &&& forall|k: int|
        0 <= k < s.len() ==> lookup((#[trigger] s[k]).fts_summary, col) is Some
}

/// What is known of a full-text column of a part. Where nothing is known of the
/// column of one superfile, nothing is known of it. Filters of different sizes
/// have no union, which is as good as knowing nothing.
pub open spec fn fts_agg(s: Seq<SuperfileEntryView>, col: Seq<char>) -> Option<FtsSummaryAggView> {
    if !all_fts(s, col) {
        None
    } else {
        let bloom = match filter_union(s, col) {
            FilterUnion::Bytes(b) => b,
            _ => Seq::empty(),
        };
        Some(
            FtsSummaryAggView {
                term_bloom_union: bloom,
                term_bloom_n_blocks: blocks_of(bloom),
                n_terms_distinct: 0,
                term_range_union: range_union(s, col),
            },
        )
    }
}

enum Filters {
    Nothing,
    Bytes(Vec<u8>),
    Mixed,
}

impl View for Filters {
    type V = FilterUnion;

    closed spec fn view(&self) -> FilterUnion {
        match *self {
            Filters::Nothing => FilterUnion::Nothing,
            Filters::Bytes(b) => FilterUnion::Bytes(b@),
            Filters::Mixed => FilterUnion::Mixed,
        }
    }
}

fn or_bytes(a: &[u8], b: &[u8]) -> (r: Vec<u8>)
    requires
        a@.len() == b@.len(),
    ensures
        r@ == bytes_or(a@, b@),
{
    let mut r: Vec<u8> = Vec::new();
    let mut i: usize = 0;
    while i < a.len()
        invariant
            i <= a@.len(),
            a@.len() == b@.len(),
            r@.len() == i,
            forall|k: int| 0 <= k < i ==> #[trigger] r@[k] == a@[k] | b@[k],
        decreases a@.len() - i,
    {
        r.push(a[i] | b[i]);
        i = i + 1;
    }
    assert(r@ =~= bytes_or(a@, b@));
    r
}

fn join_filter(acc: Filters, t: &FtsSummary) -> (r: Filters)
    ensures
        r@ == (match acc@ {
            FilterUnion::Nothing => FilterUnion::Bytes(t@.term_bloom),
            FilterUnion::Bytes(b) => if b.len() == t@.term_bloom.len() {
                FilterUnion::Bytes(bytes_or(b, t@.term_bloom))
            } else {
                FilterUnion::Mixed
            },
            FilterUnion::Mixed => FilterUnion::Mixed,
        }),
{
    match acc {
        Filters::Nothing => Filters::Bytes(t.term_bloom.to_bytes()),
        Filters::Bytes(b) => {
            let c = t.term_bloom.to_bytes();
            if b.len() == c.len() {
                Filters::Bytes(or_bytes(b.as_slice(), c.as_slice()))
            } else {
                Filters::Mixed
            }
        },
        Filters::Mixed => Filters::Mixed,
    }
}

fn join_range(acc: Option<(Vec<u8>, Vec<u8>)>, t: &FtsSummary) -> (r: Option<(Vec<u8>, Vec<u8>)>)
    ensures
        range_view(r) == joined_range(range_view(acc), term_range(t@)),
{
    if t.term_range.0.len() == 0 && t.term_range.1.len() == 0 {
        return acc;
    }
    match acc {
        None => Some(
            (bytes_copy(t.term_range.0.as_slice()), bytes_copy(t.term_range.1.as_slice())),
        ),
        Some((lo, hi)) => {
            let new_lo = if bytes_le(lo.as_slice(), t.term_range.0.as_slice()) {
                lo
            } else {
                bytes_copy(t.term_range.0.as_slice())
            };
            let new_hi = if bytes_le(t.term_range.1.as_slice(), hi.as_slice()) {
                hi
            } else {
                bytes_copy(t.term_range.1.as_slice())
            };
            Some((new_lo, new_hi))
        },
    }
}

fn fts_column_agg(superfiles: &[Arc<SuperfileEntry>], col: &str) -> (r: Option<FtsSummaryAgg>)
    ensures
        match r {
            Some(a) => fts_agg(entry_views(superfiles@), col@) == Some(a@),
            None => fts_agg(entry_views(superfiles@), col@) is None,
        },
{
    let ghost v = entry_views(superfiles@);
    if superfiles.len() == 0 {
        return None;
    }
    let mut range: Option<(Vec<u8>, Vec<u8>)> = None;
    let mut filters = Filters::Nothing;
    let mut i: usize = 0;
    proof {
        assert(v.take(0) =~= Seq::empty());
    }
    while i < superfiles.len()
        invariant
            i <= superfiles@.len(),
            v == entry_views(superfiles@),
            forall|k: int|
                0 <= k < i ==> lookup((#[trigger] v[k]).fts_summary, col@) is Some,
            range_view(range) == range_union(v.take(i as int), col@),
            filters@ == filter_union(v.take(i as int), col@),
        decreases superfiles@.len() - i,
    {
        let ghost (head, next) = (v.take(i as int), v.take(i as int + 1));
        proof {
            assert(next.drop_last() =~= head);
            assert(next.last() == superfiles@[i as int]@);
        }
        match superfiles[i].fts_summary.get(col) {
            Some(t) => {
                range = join_range(range, t);
                filters = join_filter(filters, t);
                assert(v[i as int] == next.last());
            },
            None => {
                assert(lookup(v[i as int].fts_summary, col@) is None);
                return None;
            },
        }
        i = i + 1;
    }
    proof {
        assert(v.take(i as int) =~= v);
    }
    let bloom = match filters {
        Filters::Bytes(b) => b,
        _ => Vec::new(),
    };
    let n: usize = bloom.len() / 64;
    proof {
        assert(bloom@ =~= match filter_union(v, col@) {
            FilterUnion::Bytes(b) => b,
            _ => Seq::empty(),
        });
    }
    Some(
        FtsSummaryAgg {
            term_bloom_union: bloom,
            term_bloom_n_blocks: (n as u64 % 0x1_0000_0000) as u32,
            n_terms_distinct: 0,
            term_range_union: range,
        },
    )
}

fn fts_columns(superfiles: &[Arc<SuperfileEntry>]) -> (r: ColumnMap<bool>)
    ensures
        forall|c: Seq<char>|
            #[trigger] lookup(r@, c) is Some <==> has_fts(entry_views(superfiles@), c),
        ascending(r@),
{
    let ghost v = entry_views(superfiles@);
    let mut names: ColumnMap<bool> = ColumnMap::new();
    let mut i: usize = 0;
    while i < superfiles.len()
        invariant
            i <= superfiles@.len(),
            v == entry_views(superfiles@),
            forall|c: Seq<char>|
                #[trigger] lookup(names@, c) is Some <==> has_fts(v.take(i as int), c),
        decreases superfiles@.len() - i,
    {
        let cols = &superfiles[i].fts_summary;
        cols.note_ascending();
        let n: usize = cols.len();
        let mut j: usize = 0;
        let ghost head = v.take(i as int);
        while j < n
            invariant
                n == cols@.len(),
                j <= n,
                ascending(cols@),
                forall|c: Seq<char>|
                    #[trigger] lookup(names@, c) is Some <==> (has_fts(head, c) || exists|k: int|
                        0 <= k < j && (#[trigger] cols@[k]).0 == c),
            decreases n - j,
        {
            let key = cols.key_at(j).clone();
            names.note_ascending();
            let ghost before = names@;
            if !names.contains_key(key.as_str()) {
                names.insert(key, true);
                proof {
                    assert forall|c: Seq<char>|
                        #[trigger] lookup(names@, c) is Some <==> (has_fts(head, c)
                            || exists|k: int| 0 <= k < j + 1 && (#[trigger] cols@[k]).0 == c) by {
                        lookup_after_insert(before, key@, true, c);
                        if c == key@ {
                            assert(cols@[j as int].0 == c);
                        }
                        if exists|k: int| 0 <= k < j + 1 && (#[trigger] cols@[k]).0 == c {
                            let k = choose|k: int| 0 <= k < j + 1 && (#[trigger] cols@[k]).0 == c;
                            if k < j {
                                assert(lookup(before, c) is Some);
                            }
                        }
                    }
                }
            } else {
                proof {
                    assert forall|c: Seq<char>|
                        #[trigger] lookup(names@, c) is Some <==> (has_fts(head, c)
                            || exists|k: int| 0 <= k < j + 1 && (#[trigger] cols@[k]).0 == c) by {
                        if exists|k: int| 0 <= k < j + 1 && (#[trigger] cols@[k]).0 == c {
                            let k = choose|k: int| 0 <= k < j + 1 && (#[trigger] cols@[k]).0 == c;
                            if k < j {
                                assert(lookup(before, c) is Some);
                            }
                        }
                    }
                }
            }
            j = j + 1;
        }
        proof {
            let next = v.take(i as int + 1);
            assert(cols@ == v[i as int].fts_summary);
            assert forall|c: Seq<char>| #[trigger] lookup(names@, c) is Some <==> has_fts(
                next,
                c,
            ) by {
                lemma_lookup_some(cols@, c);
                if has_fts(head, c) {
                    let k = choose|k: int|
                        0 <= k < head.len() && lookup((#[trigger] head[k]).fts_summary, c) is Some;
                    assert(next[k] == head[k]);
                }
                if exists|k: int| 0 <= k < n && (#[trigger] cols@[k]).0 == c {
                    assert(lookup(next[i as int].fts_summary, c) is Some);
                }
                if has_fts(next, c) {
                    let k = choose|k: int|
                        0 <= k < next.len() && lookup((#[trigger] next[k]).fts_summary, c) is Some;
                    if k < i {
                        assert(head[k] == next[k]);
                    }
                }
            }
        }
        i = i + 1;
    }
    proof {
        assert(v.take(i as int) =~= v);
    }
    names.note_ascending();
    names
}

/// What is known of the full-text columns of superfiles.
pub fn fts_summary_agg(superfiles: &[Arc<SuperfileEntry>]) -> (r: ColumnMap<FtsSummaryAgg>)
    ensures
        forall|c: Seq<char>| #[trigger] lookup(r@, c) == fts_agg(entry_views(superfiles@), c),
{
    let ghost v = entry_views(superfiles@);
    let names = fts_columns(superfiles);
    let n: usize = names.len();
    let mut out: ColumnMap<FtsSummaryAgg> = ColumnMap::new();
    let mut i: usize = 0;
    while i < n
        invariant
            n == names@.len(),
            i <= n,
            v == entry_views(superfiles@),
            ascending(names@),
            forall|c: Seq<char>|
                #[trigger] lookup(names@, c) is Some <==> has_fts(v, c),
            forall|c: Seq<char>|
                #[trigger] lookup(out@, c) == (if exists|k: int|
                    0 <= k < i && (#[trigger] names@[k]).0 == c {
                    fts_agg(v, c)
                } else {
                    None
                }),
        decreases n - i,
    {
        let key = names.key_at(i).clone();
        out.note_ascending();
        let ghost before = out@;
        proof {
            assert forall|k: int| 0 <= k < i implies (#[trigger] names@[k]).0 != key@ by {
                assert(crate::column_map::key_lt(names@[k].0, names@[i as int].0));
                crate::lex::lex_le_reflexive(vstd::utf8::encode_utf8(key@));
            }
            lemma_lookup_at(names@, i as int);
        }
        if let Some(a) = fts_column_agg(superfiles, key.as_str()) {
            out.insert(key, a);
            proof {
                assert forall|c: Seq<char>|
                    #[trigger] lookup(out@, c) == (if exists|k: int|
                        0 <= k < i + 1 && (#[trigger] names@[k]).0 == c {
                        fts_agg(v, c)
                    } else {
                        None
                    }) by {
                    lookup_after_insert(before, key@, a@, c);
                    if c == key@ {
                        assert(names@[i as int].0 == c);
                    } else if exists|k: int| 0 <= k < i + 1 && (#[trigger] names@[k]).0 == c {
                        let k = choose|k: int| 0 <= k < i + 1 && (#[trigger] names@[k]).0 == c;
                        assert(k < i);
                    }
                }
            }
        } else {
            proof {
                assert forall|c: Seq<char>|
                    #[trigger] lookup(out@, c) == (if exists|k: int|
                        0 <= k < i + 1 && (#[trigger] names@[k]).0 == c {
                        fts_agg(v, c)
                    } else {
                        None
                    }) by {
                    if exists|k: int| 0 <= k < i + 1 && (#[trigger] names@[k]).0 == c {
                        let k = choose|k: int| 0 <= k < i + 1 && (#[trigger] names@[k]).0 == c;
                        if k == i {
                            assert(c == key@);
                        }
                    }
                }
            }
        }
        i = i + 1;
    }
    proof {
        assert forall|c: Seq<char>| #[trigger] lookup(out@, c) == fts_agg(v, c) by {
            lemma_lookup_some(names@, c);
            if all_fts(v, c) {
                assert(lookup(v[0].fts_summary, c) is Some);
                assert(has_fts(v, c));
                assert(lookup(names@, c) is Some);
            }
        }
    }
    out
}

// ---------------------------------------------------------------- all together

/// What is known of a part with these superfiles. The spheres of its vector
/// columns are `vector_aggs`. Of a part without superfiles nothing is known.
pub fn compute(
    superfiles: &[Arc<SuperfileEntry>],
    vector_aggs: ColumnMap<VectorSummaryAgg>,
) -> (r: AggregateSet)
    ensures
        superfiles@.len() == 0 ==> r.id_range == (0i128, 0i128) && r.scalar_stats_agg@.len() == 0
            && r.fts_summary_agg@.len() == 0 && r.vector_summary_agg@.len() == 0,
        superfiles@.len() > 0 ==> {
            let s = entry_views(superfiles@);
            &&& r.id_range == (least_id(s), greatest_id(s))
            &&& forall|c: Seq<char>|
                #[trigger] lookup(r.scalar_stats_agg@, c) == scalar_agg(s, c)
            &&& forall|c: Seq<char>| #[trigger] lookup(r.fts_summary_agg@, c) == fts_agg(s, c)
            &&& r.vector_summary_agg@ == vector_aggs@
        },
{
    if superfiles.len() == 0 {
        return AggregateSet::default();
    }
    AggregateSet {
        id_range: id_range(superfiles),
        scalar_stats_agg: scalar_stats_agg(superfiles),
        fts_summary_agg: fts_summary_agg(superfiles),
        vector_summary_agg: vector_aggs,
    }
}

// ---------------------------------------------------------------- laws

/// The range of a part's terms lies around the range of every superfile that
/// has terms.
pub proof fn range_union_covers(s: Seq<SuperfileEntryView>, col: Seq<char>, k: int)
    requires
        0 <= k < s.len(),
        lookup(s[k].fts_summary, col) is Some,
        term_range(lookup(s[k].fts_summary, col)->0) is Some,
    ensures
        range_union(s, col) is Some,
        lex_le((range_union(s, col)->0).0, lookup(s[k].fts_summary, col)->0.term_range.0),
        lex_le(lookup(s[k].fts_summary, col)->0.term_range.1, (range_union(s, col)->0).1),
    decreases s.len(),
{
    let t = lookup(s[k].fts_summary, col)->0;
    let head = range_union(s.drop_last(), col);
    crate::lex::lex_le_reflexive(t.term_range.0);
    crate::lex::lex_le_reflexive(t.term_range.1);
    if k == s.len() - 1 {
        if let Some(a) = head {
            crate::lex::lex_le_total(a.0, t.term_range.0);
            crate::lex::lex_le_total(a.1, t.term_range.1);
        }
    } else {
        assert(s.drop_last()[k] == s[k]);
        range_union_covers(s.drop_last(), col, k);
        match lookup(s.last().fts_summary, col) {
            Some(u) => {
                if let Some(b) = term_range(u) {
                    let a = head->0;
                    let c = joined_range(head, Some(b))->0;
                    crate::lex::lex_le_total(a.0, b.0);
                    crate::lex::lex_le_total(a.1, b.1);
                    assert(lex_le(c.0, a.0)) by {
                        crate::lex::lex_le_reflexive(a.0);
                    }
                    assert(lex_le(a.1, c.1)) by {
                        crate::lex::lex_le_reflexive(a.1);
                    }
                    crate::lex::lex_le_transitive(c.0, a.0, t.term_range.0);
                    crate::lex::lex_le_transitive(t.term_range.1, a.1, c.1);
                }
            },
            None => {},
        }
    }
}

/// A part's filter, where it has one, contains every key that the filter of one
/// of its superfiles contains.
pub proof fn filter_union_keeps_keys(
    s: Seq<SuperfileEntryView>,
    col: Seq<char>,
    k: int,
    key: Seq<u8>,
)
    requires
        0 <= k < s.len(),
        lookup(s[k].fts_summary, col) is Some,
        crate::manifest::bloom::may_contain(
            lookup(s[k].fts_summary, col)->0.term_bloom,
            crate::manifest::bloom::mask_of(
                lookup(s[k].fts_summary, col)->0.term_bloom.len() / 64,
            ),
            key,
        ),
    ensures
        filter_union(s, col) !is Nothing,
        filter_union(s, col) matches FilterUnion::Bytes(b)
            ==> crate::manifest::bloom::may_contain(
            b,
            crate::manifest::bloom::mask_of(b.len() / 64),
            key,
        ),
    decreases s.len(),
{
    let head = filter_union(s.drop_last(), col);
    if k == s.len() - 1 {
        let t = lookup(s[k].fts_summary, col)->0;
        if let FilterUnion::Bytes(b) = head {
            if b.len() == t.term_bloom.len() {
                crate::manifest::bloom::union_keeps_keys(b, t.term_bloom, key);
            }
        }
    } else {
        assert(s.drop_last()[k] == s[k]);
        filter_union_keeps_keys(s.drop_last(), col, k, key);
        match lookup(s.last().fts_summary, col) {
            Some(u) => {
                if let FilterUnion::Bytes(b) = head {
                    if b.len() == u.term_bloom.len() {
                        crate::manifest::bloom::union_keeps_keys(b, u.term_bloom, key);
                    }
                }
            },
            None => {},
        }
    }
}

proof fn lemma_concatenated_holds(cols: Seq<ColumnView>, k: int, i: int)
    requires
        concatenated(cols) is Some,
        0 <= k < cols.len(),
        0 <= i < cols[k].values.len(),
    ensures
        concatenated(cols)->0.values.contains(cols[k].values[i]),
        concatenated(cols)->0.data_type == cols[k].data_type,
    decreases cols.len(),
{
    let all = concatenated(cols)->0.values;
    if cols.len() == 1 {
        assert(all[i] == cols[k].values[i]);
    } else {
        let rest = cols.drop_last();
        let head = concatenated(rest)->0.values;
        if k < rest.len() {
            lemma_concatenated_holds(rest, k, i);
            assert(rest[k] == cols[k]);
            let j = choose|j: int| 0 <= j < head.len() && head[j] == cols[k].values[i];
            assert(all[j] == cols[k].values[i]);
        } else {
            assert(all[head.len() + i] == cols[k].values[i]);
        }
    }
}

/// The place of a superfile's bounds among all bounds.
proof fn lemma_bounds_place(s: Seq<SuperfileEntryView>, col: Seq<char>, k: int) -> (p: int)
    requires
        0 <= k < s.len(),
        lookup(s[k].scalar_stats, col) is Some,
    ensures
        lower_bounds(s, col).len() == upper_bounds(s, col).len(),
        0 <= p < lower_bounds(s, col).len(),
        lower_bounds(s, col)[p] == bound_column((lookup(s[k].scalar_stats, col)->0).0),
        upper_bounds(s, col)[p] == bound_column((lookup(s[k].scalar_stats, col)->0).1),
    decreases s.len(),
{
    lemma_bounds_pair(s.drop_last(), col);
    if k == s.len() - 1 {
        lower_bounds(s.drop_last(), col).len() as int
    } else {
        assert(s.drop_last()[k] == s[k]);
        lemma_bounds_place(s.drop_last(), col, k)
    }
}

proof fn lemma_bounds_pair(s: Seq<SuperfileEntryView>, col: Seq<char>)
    ensures
        lower_bounds(s, col).len() == upper_bounds(s, col).len(),
    decreases s.len(),
{
    if s.len() > 0 {
        lemma_bounds_pair(s.drop_last(), col);
    }
}

/// The bounds of a scalar column of a part lie around those of every superfile:
/// what they rule out, no superfile holds.
pub proof fn overall_bounds_cover(s: Seq<SuperfileEntryView>, col: Seq<char>, k: int)
    requires
        0 <= k < s.len(),
        overall_bounds(s, col) is Some,
        lookup(s[k].scalar_stats, col) is Some,
        well_typed_bounds(lower_bounds(s, col)),
        well_typed_bounds(upper_bounds(s, col)),
    ensures
        ({
            let own = lookup(s[k].scalar_stats, col)->0;
            let all = overall_bounds(s, col)->0;
            &&& all.0.data_type == own.0.data_type
            &&& own.0.value matches Some(v) ==> value_le(
                own.0.data_type.kind,
                all.0.value->0,
                v,
            )
            &&& own.1.value matches Some(v) ==> value_le(
                own.1.data_type.kind,
                v,
                all.1.value->0,
            )
        }),
{
    let own = lookup(s[k].scalar_stats, col)->0;
    let lower = lower_bounds(s, col);
    let upper = upper_bounds(s, col);
    let p = lemma_bounds_place(s, col, k);
    lemma_concatenated_holds(lower, p, 0);
    lemma_concatenated_holds(upper, p, 0);
    let a = concatenated(lower)->0;
    let b = concatenated(upper)->0;
    extremes_bound_the_column(a.data_type.kind, a.values);
    extremes_bound_the_column(b.data_type.kind, b.values);
    let i = choose|i: int| 0 <= i < a.values.len() && a.values[i] == own.0.value;
    let j = choose|j: int| 0 <= j < b.values.len() && b.values[j] == own.1.value;
    assert(a.values[i] == own.0.value);
    assert(b.values[j] == own.1.value);
}

/// That bounds, taken together, have the form of their type.
pub open spec fn well_typed_bounds(bounds: Seq<ColumnView>) -> bool {
    concatenated(bounds) matches Some(c) ==> well_typed_column(c.data_type.kind, c.values)
}

/// The ends of the range of a part's terms are ends of superfiles that have
/// terms: the range is no wider than it has to be.
pub proof fn range_union_is_tight(s: Seq<SuperfileEntryView>, col: Seq<char>)
    requires
        range_union(s, col) is Some,
    ensures
        exists|k: int|
            0 <= k < s.len() && ends_at(#[trigger] s[k], col, (range_union(s, col)->0).0, true),
        exists|k: int|
            0 <= k < s.len() && ends_at(#[trigger] s[k], col, (range_union(s, col)->0).1, false),
    decreases s.len(),
{
    let rest = s.drop_last();
    let n = s.len() - 1;
    let head = range_union(rest, col);
    let all = range_union(s, col)->0;
    assert(s[n] == s.last());
    if head is Some {
        range_union_is_tight(rest, col);
        let a = choose|k: int|
            0 <= k < rest.len() && ends_at(#[trigger] rest[k], col, (head->0).0, true);
        let b = choose|k: int|
            0 <= k < rest.len() && ends_at(#[trigger] rest[k], col, (head->0).1, false);
        assert(rest[a] == s[a] && rest[b] == s[b]);
        if all.0 == (head->0).0 {
            assert(ends_at(s[a], col, all.0, true));
        } else {
            assert(ends_at(s[n], col, all.0, true));
        }
        if all.1 == (head->0).1 {
            assert(ends_at(s[b], col, all.1, false));
        } else {
            assert(ends_at(s[n], col, all.1, false));
        }
    } else {
        assert(ends_at(s[n], col, all.0, true));
        assert(ends_at(s[n], col, all.1, false));
    }
}

/// That the terms of a superfile begin, or end, at a term.
pub open spec fn ends_at(e: SuperfileEntryView, col: Seq<char>, term: Seq<u8>, lower: bool) -> bool {
    lookup(e.fts_summary, col) matches Some(t) && (t.term_range.0.len() > 0
        || t.term_range.1.len() > 0) && (if lower {
        t.term_range.0 == term
    } else {
        t.term_range.1 == term
    })
}

/// That the superfile's filter of a column has a bit.
pub open spec fn filter_bit(e: SuperfileEntryView, col: Seq<char>, p: int) -> bool {
    lookup(e.fts_summary, col) matches Some(t) && has_bit(t.term_bloom, p)
}

/// The filters of a part have a union just where they are of one size, and it
/// has a bit just where one of them has it.
pub proof fn filter_union_has_their_bits(s: Seq<SuperfileEntryView>, col: Seq<char>, p: int)
    ensures
        filter_union(s, col) is Nothing <==> !has_fts(s, col),
        filter_union(s, col) matches FilterUnion::Bytes(b) ==> (has_bit(b, p) <==> exists|k: int|
            0 <= k < s.len() && filter_bit(#[trigger] s[k], col, p)) && forall|k: int|
            0 <= k < s.len() && lookup((#[trigger] s[k]).fts_summary, col) is Some ==> lookup(
                s[k].fts_summary,
                col,
            )->0.term_bloom.len() == b.len(),
        filter_union(s, col) is Mixed ==> exists|j: int, k: int|
            #![trigger s[j], s[k]]
            0 <= j < s.len() && 0 <= k < s.len() && lookup(s[j].fts_summary, col) is Some
                && lookup(s[k].fts_summary, col) is Some && lookup(
                s[j].fts_summary,
                col,
            )->0.term_bloom.len() != lookup(s[k].fts_summary, col)->0.term_bloom.len(),
    decreases s.len(),
{
    if s.len() > 0 {
        let rest = s.drop_last();
        let n = s.len() - 1;
        filter_union_has_their_bits(rest, col, p);
        let head = filter_union(rest, col);
        assert(s[n] == s.last());
        assert forall|k: int| 0 <= k < rest.len() implies s[k] == #[trigger] rest[k] by {}
        if has_fts(rest, col) {
            let k = choose|k: int|
                0 <= k < rest.len() && lookup((#[trigger] rest[k]).fts_summary, col) is Some;
            assert(lookup(s[k].fts_summary, col) is Some);
            assert(has_fts(s, col));
        }
        if has_fts(s, col) {
            let k = choose|k: int|
                0 <= k < s.len() && lookup((#[trigger] s[k]).fts_summary, col) is Some;
            if k < n {
                assert(lookup(rest[k].fts_summary, col) is Some);
            }
        }
        match lookup(s[n].fts_summary, col) {
            Some(t) => {
                assert(has_fts(s, col));
                match head {
                    FilterUnion::Nothing => {
                        assert forall|k: int| 0 <= k < n implies lookup(
                            (#[trigger] s[k]).fts_summary,
                            col,
                        ) is None by {
                            assert(rest[k] == s[k]);
                        }
                        if has_bit(t.term_bloom, p) {
                            assert(filter_bit(s[n], col, p));
                        }
                    },
                    FilterUnion::Bytes(b) => {
                        let j = choose|k: int|
                            0 <= k < rest.len() && lookup((#[trigger] rest[k]).fts_summary, col)
                                is Some;
                        assert(lookup(s[j].fts_summary, col)->0.term_bloom.len() == b.len());
                        if b.len() == t.term_bloom.len() {
                            union_has_the_bits_of_both(b, t.term_bloom, p);
                            assert forall|k: int|
                                0 <= k < s.len() && lookup((#[trigger] s[k]).fts_summary, col)
                                    is Some implies lookup(s[k].fts_summary, col)->0
                                .term_bloom.len() == b.len() by {
                                if k < n {
                                    assert(rest[k] == s[k]);
                                }
                            }
                            if has_bit(b, p) {
                                let k = choose|k: int|
                                    0 <= k < rest.len() && filter_bit(#[trigger] rest[k], col, p);
                                assert(filter_bit(s[k], col, p));
                            }
                            if has_bit(t.term_bloom, p) {
                                assert(filter_bit(s[n], col, p));
                            }
                            if exists|k: int|
                                0 <= k < s.len() && filter_bit(#[trigger] s[k], col, p) {
                                let k = choose|k: int|
                                    0 <= k < s.len() && filter_bit(#[trigger] s[k], col, p);
                                if k < n {
                                    assert(filter_bit(rest[k], col, p));
                                }
                            }
                        } else {
                            assert(lookup(s[j].fts_summary, col)->0.term_bloom.len() != lookup(
                                s[n].fts_summary,
                                col,
                            )->0.term_bloom.len());
                        }
                    },
                    FilterUnion::Mixed => {},
                }
            },
            None => {
                match head {
                    FilterUnion::Bytes(b) => {
                        if has_bit(b, p) {
                            let k = choose|k: int|
                                0 <= k < rest.len() && filter_bit(#[trigger] rest[k], col, p);
                            assert(filter_bit(s[k], col, p));
                        }
                        if exists|k: int| 0 <= k < s.len() && filter_bit(#[trigger] s[k], col, p) {
                            let k = choose|k: int|
                                0 <= k < s.len() && filter_bit(#[trigger] s[k], col, p);
                            assert(filter_bit(rest[k], col, p));
                        }
                        assert forall|k: int|
                            0 <= k < s.len() && lookup((#[trigger] s[k]).fts_summary, col)
                                is Some implies lookup(s[k].fts_summary, col)->0.term_bloom.len()
                            == b.len() by {
                            assert(rest[k] == s[k]);
                        }
                    },
                    _ => {},
                }
            },
        }
        if head is Mixed {
            let (j, k) = choose|j: int, k: int|
                #![trigger rest[j], rest[k]]
                0 <= j < rest.len() && 0 <= k < rest.len() && lookup(rest[j].fts_summary, col)
                    is Some && lookup(rest[k].fts_summary, col) is Some && lookup(
                    rest[j].fts_summary,
                    col,
                )->0.term_bloom.len() != lookup(rest[k].fts_summary, col)->0.term_bloom.len();
            assert(s[j] == rest[j] && s[k] == rest[k]);
        }
    }
}

/// What is known of a full-text column of a part says the size of its filter in
/// blocks of 64 bytes, and is there just where every superfile has a summary.
pub proof fn parts_know_what_all_superfiles_know(s: Seq<SuperfileEntryView>, col: Seq<char>)
    requires
        s.len() > 0,
    ensures
        fts_agg(s, col) is Some <==> forall|k: int|
            0 <= k < s.len() ==> lookup((#[trigger] s[k]).fts_summary, col) is Some,
        fts_agg(s, col) matches Some(a) ==> {
            &&& a.term_bloom_union.len() < 64 * 0x1_0000_0000 ==> a.term_bloom_n_blocks
                == a.term_bloom_union.len() / 64
            &&& a.term_range_union == range_union(s, col)
            &&& filter_union(s, col) matches FilterUnion::Bytes(b) ==> a.term_bloom_union == b
            &&& filter_union(s, col) is Mixed ==> a.term_bloom_union.len() == 0
        },
{
    if forall|k: int| 0 <= k < s.len() ==> lookup((#[trigger] s[k]).fts_summary, col) is Some {
        assert(all_fts(s, col));
    }
}

proof fn lemma_concatenated_from(cols: Seq<ColumnView>, x: Option<ValueView>)
    requires
        concatenated(cols) is Some,
        concatenated(cols)->0.values.contains(x),
    ensures
        exists|k: int| 0 <= k < cols.len() && (#[trigger] cols[k]).values.contains(x),
    decreases cols.len(),
{
    let all = concatenated(cols)->0.values;
    if cols.len() == 1 {
        assert(cols[0].values.contains(x));
    } else {
        let rest = cols.drop_last();
        let n = cols.len() - 1;
        let head = concatenated(rest)->0.values;
        let j = choose|j: int| 0 <= j < all.len() && all[j] == x;
        if j < head.len() {
            assert(head[j] == x);
            assert(head.contains(x));
            lemma_concatenated_from(rest, x);
            let k = choose|k: int| 0 <= k < rest.len() && (#[trigger] rest[k]).values.contains(x);
            assert(cols[k].values.contains(x));
        } else {
            assert(cols[n].values[j - head.len()] == x);
            assert(cols[n].values.contains(x));
        }
    }
}

proof fn lemma_bound_from(s: Seq<SuperfileEntryView>, col: Seq<char>, p: int)
    requires
        0 <= p < lower_bounds(s, col).len(),
    ensures
        lower_bounds(s, col).len() == upper_bounds(s, col).len(),
        exists|k: int|
            0 <= k < s.len() && (lookup((#[trigger] s[k]).scalar_stats, col) matches Some(b)
                && lower_bounds(s, col)[p] == bound_column(b.0) && upper_bounds(s, col)[p]
                == bound_column(b.1)),
    decreases s.len(),
{
    lemma_bounds_pair(s, col);
    let rest = s.drop_last();
    lemma_bounds_pair(rest, col);
    if p < lower_bounds(rest, col).len() {
        lemma_bound_from(rest, col, p);
        let k = choose|k: int|
            0 <= k < rest.len() && (lookup((#[trigger] rest[k]).scalar_stats, col) matches Some(b)
                && lower_bounds(rest, col)[p] == bound_column(b.0) && upper_bounds(rest, col)[p]
                == bound_column(b.1));
        assert(s[k] == rest[k]);
    } else {
        assert(s[s.len() - 1] == s.last());
    }
}

/// The bounds of a scalar column of a part are bounds of superfiles: they are no
/// wider than they have to be.
pub proof fn overall_bounds_are_tight(s: Seq<SuperfileEntryView>, col: Seq<char>)
    requires
        overall_bounds(s, col) is Some,
        well_typed_bounds(lower_bounds(s, col)),
        well_typed_bounds(upper_bounds(s, col)),
    ensures
        exists|k: int|
            0 <= k < s.len() && (lookup((#[trigger] s[k]).scalar_stats, col) matches Some(b)
                && b.0.value == (overall_bounds(s, col)->0).0.value),
        exists|k: int|
            0 <= k < s.len() && (lookup((#[trigger] s[k]).scalar_stats, col) matches Some(b)
                && b.1.value == (overall_bounds(s, col)->0).1.value),
        (overall_bounds(s, col)->0).0.value is Some,
        (overall_bounds(s, col)->0).1.value is Some,
{
    let lower = lower_bounds(s, col);
    let upper = upper_bounds(s, col);
    let a = concatenated(lower)->0;
    let b = concatenated(upper)->0;
    extremes_bound_the_column(a.data_type.kind, a.values);
    extremes_bound_the_column(b.data_type.kind, b.values);
    let lo = (overall_bounds(s, col)->0).0.value;
    let hi = (overall_bounds(s, col)->0).1.value;
    lemma_concatenated_from(lower, lo);
    lemma_concatenated_from(upper, hi);
    let p = choose|p: int| 0 <= p < lower.len() && (#[trigger] lower[p]).values.contains(lo);
    let q = choose|q: int| 0 <= q < upper.len() && (#[trigger] upper[q]).values.contains(hi);
    lemma_bounds_pair(s, col);
    lemma_bound_from(s, col, p);
    lemma_bound_from(s, col, q);
    let k = choose|k: int|
        0 <= k < s.len() && (lookup((#[trigger] s[k]).scalar_stats, col) matches Some(b)
            && lower[p] == bound_column(b.0) && upper[p] == bound_column(b.1));
    let m = choose|k: int|
        0 <= k < s.len() && (lookup((#[trigger] s[k]).scalar_stats, col) matches Some(b)
            && lower[q] == bound_column(b.0) && upper[q] == bound_column(b.1));
    assert((lookup(s[k].scalar_stats, col)->0).0.value == lo);
    assert((lookup(s[m].scalar_stats, col)->0).1.value == hi);
}

/// A part keeps the least and the greatest value of a column, each as the stream
/// of one value under the column's name, and both or none.
pub proof fn scalar_aggregates_hold_their_ends(s: Seq<SuperfileEntryView>, col: Seq<char>)
    ensures
        overall_bounds(s, col) is None ==> scalar_agg(s, col) is None,
        overall_bounds(s, col) matches Some(b) ==> match scalar_agg(s, col) {
            Some(a) => scalar_stream(col, b.0) == Some(a.min) && scalar_stream(col, b.1) == Some(
                a.max,
            ),
            None => scalar_stream(col, b.0) is None || scalar_stream(col, b.1) is None,
        },
{
}

/// A part does not count the terms of its superfiles: one term can be in
/// several.
pub proof fn parts_count_no_terms(s: Seq<SuperfileEntryView>, col: Seq<char>)
    ensures
        fts_agg(s, col) matches Some(a) ==> a.n_terms_distinct == 0,
{
}

} // verus!
