//! Which parts a query has to look into.

use vstd::prelude::*;
use vstd::utf8::encode_utf8;

use crate::bytes::{read_u32s, u32s_bytes, u32s_parsed, u32s_round_trip};
use crate::column_map::lookup;
use crate::lex::{
    bytes_copy, bytes_le, lex_le, lex_le_reflexive, lex_le_total, lex_le_transitive, lex_lt,
    starts_with,
};
use crate::manifest::aggregates::{
    all_fts, filter_union, filter_union_keeps_keys, fts_agg, greatest_id, id_range_covers, least_id,
    range_union_covers, FilterUnion,
};
use crate::manifest::bloom::{is_filter, mask_of, may_contain, Bloom};
use crate::manifest::entry::SuperfileEntryView;
use crate::manifest::list::{
    part_views, FtsSummaryAggView, ManifestList, ManifestListEntry, ManifestListEntryView,
};
use crate::manifest::part::PartId;
use crate::query::skip::{may_have_prefix, may_have_terms};

verus! {

/// Whether a query asks for any or for all of its terms.
#[derive(Clone, Copy, PartialEq, Eq, Structural, Debug)]
pub enum BoolMode {
    Or,
    And,
}

// ---------------------------------------------------------------- prefixes

/// The least byte string that is greater than every one with the prefix; none
/// where there is no such string.
pub open spec fn upper_bound(prefix: Seq<u8>) -> Option<Seq<u8>>
    decreases prefix.len(),
{
    if prefix.len() == 0 {
        None
    } else if prefix.last() == 0xff {
        upper_bound(prefix.drop_last())
    } else {
        Some(prefix.drop_last().push((prefix.last() + 1) as u8))
    }
}

/// The least byte string that is greater than every one with the prefix.
pub fn prefix_upper_bound(prefix: &[u8]) -> (r: Option<Vec<u8>>)
    ensures
        match r {
            Some(u) => upper_bound(prefix@) == Some(u@),
            None => upper_bound(prefix@) is None,
        },
{
    let mut n: usize = prefix.len();
    proof {
        assert(prefix@.take(n as int) =~= prefix@);
    }
    while n > 0
        invariant
            n <= prefix@.len(),
            upper_bound(prefix@) == upper_bound(prefix@.take(n as int)),
        decreases n,
    {
        proof {
            assert(prefix@.take(n as int).drop_last() =~= prefix@.take(n as int - 1));
            assert(prefix@.take(n as int).last() == prefix@[n as int - 1]);
        }
        let b = prefix[n - 1];
        if b != 0xff {
            let mut out = bytes_copy(vstd::slice::slice_subrange(prefix, 0, n - 1));
            proof {
                assert(prefix@.subrange(0, n as int - 1) =~= prefix@.take(n as int - 1));
            }
            out.push(b + 1);
            return Some(out);
        }
        n = n - 1;
    }
    None
}

proof fn lemma_upper_front(c: u8, p: Seq<u8>)
    ensures
        upper_bound(seq![c] + p) == (match upper_bound(p) {
            Some(u) => Some(seq![c] + u),
            None => if c == 0xff {
                None
            } else {
                Some(seq![(c + 1) as u8])
            },
        }),
    decreases p.len(),
{
    let s = seq![c] + p;
    if p.len() == 0 {
        assert(s.drop_last() =~= Seq::empty());
        assert(s.last() == c);
        assert(upper_bound(s.drop_last()) is None);
        assert(upper_bound(p) is None);
        assert(Seq::<u8>::empty().push((c + 1) as u8) =~= seq![(c + 1) as u8]);
    } else {
        assert(s.last() == p.last());
        assert(s.drop_last() =~= seq![c] + p.drop_last());
        if p.last() == 0xff {
            lemma_upper_front(c, p.drop_last());
        } else {
            assert((seq![c] + p.drop_last()).push((p.last() + 1) as u8) =~= seq![c]
                + p.drop_last().push((p.last() + 1) as u8));
        }
    }
}

/// The byte strings with a prefix are those from the prefix up to its upper
/// bound.
pub proof fn prefix_is_a_range(prefix: Seq<u8>, s: Seq<u8>)
    ensures
        starts_with(s, prefix) <==> lex_le(prefix, s) && (match upper_bound(prefix) {
            Some(u) => lex_lt(s, u),
            None => true,
        }),
    decreases prefix.len(),
{
    if prefix.len() == 0 {
        assert(s.take(0) =~= prefix);
    } else {
        let c = prefix[0];
        let p = prefix.skip(1);
        assert(prefix =~= seq![c] + p);
        lemma_upper_front(c, p);
        if s.len() > 0 {
            let t = s.skip(1);
            prefix_is_a_range(p, t);
            assert(starts_with(s, prefix) <==> s[0] == c && starts_with(t, p)) by {
                if starts_with(s, prefix) {
                    assert(s.take(prefix.len() as int)[0] == prefix[0]);
                    assert(t.take(p.len() as int) =~= p) by {
                        assert forall|k: int| 0 <= k < p.len() implies t[k] == p[k] by {
                            assert(s.take(prefix.len() as int)[k + 1] == prefix[k + 1]);
                        }
                    }
                }
                if s[0] == c && starts_with(t, p) {
                    assert(s.take(prefix.len() as int) =~= prefix) by {
                        assert forall|k: int| 0 <= k < prefix.len() implies s[k] == prefix[k] by {
                            if k > 0 {
                                assert(t.take(p.len() as int)[k - 1] == p[k - 1]);
                            }
                        }
                    }
                }
            }
            assert(lex_le(prefix, s) <==> if c != s[0] {
                c < s[0]
            } else {
                lex_le(p, t)
            });
            match upper_bound(p) {
                Some(u) => {
                    let v = seq![c] + u;
                    assert(v.skip(1) =~= u);
                    assert(upper_bound(prefix) == Some(v));
                    assert(lex_le(v, s) <==> if c != s[0] {
                        c < s[0]
                    } else {
                        lex_le(u, t)
                    });
                },
                None => {
                    if c != 0xff {
                        let v = seq![(c + 1) as u8];
                        assert(v.skip(1) =~= Seq::empty());
                        assert(upper_bound(prefix) == Some(v));
                        assert(lex_le(v.skip(1), t));
                        assert(lex_le(v, s) <==> c < s[0]);
                    }
                },
            }
        } else {
            assert(!starts_with(s, prefix));
        }
    }
}

/// Whether strings with the prefix can lie between two bounds.
pub open spec fn overlaps(prefix: Seq<u8>, min: Seq<u8>, max: Seq<u8>) -> bool {
    &&& lex_le(prefix, max)
    &&& match upper_bound(prefix) {
        Some(u) => lex_lt(min, u),
        None => true,
    }
}

/// Where a string with the prefix lies between the bounds, the test says so.
pub proof fn overlap_misses_nothing(prefix: Seq<u8>, min: Seq<u8>, max: Seq<u8>, s: Seq<u8>)
    requires
        starts_with(s, prefix),
        lex_le(min, s),
        lex_le(s, max),
    ensures
        overlaps(prefix, min, max),
{
    prefix_is_a_range(prefix, s);
    lex_le_transitive(prefix, s, max);
    match upper_bound(prefix) {
        Some(u) => {
            if lex_le(u, min) {
                lex_le_transitive(u, min, s);
            } else {
                lex_le_total(u, min);
            }
        },
        None => {},
    }
}

/// Whether strings with the prefix can lie between two bounds.
pub fn prefix_overlaps_range(prefix: &[u8], min: &[u8], max: &[u8]) -> (r: bool)
    ensures
        r == overlaps(prefix@, min@, max@),
{
    if !bytes_le(prefix, max) {
        return false;
    }
    match prefix_upper_bound(prefix) {
        Some(u) => !bytes_le(u.as_slice(), min),
        None => true,
    }
}

// ---------------------------------------------------------------- tests on parts

/// The parts that pass a test, in order.
pub open spec fn surviving(
    parts: Seq<ManifestListEntryView>,
    keep: spec_fn(ManifestListEntryView) -> bool,
) -> Seq<PartId>
    decreases parts.len(),
{
    if parts.len() == 0 {
        Seq::empty()
    } else {
        let head = surviving(parts.drop_last(), keep);
        if keep(parts.last()) {
            head.push(parts.last().part_id)
        } else {
            head
        }
    }
}

/// A part that passes the test is among those kept.
pub proof fn survivor_is_kept(
    parts: Seq<ManifestListEntryView>,
    keep: spec_fn(ManifestListEntryView) -> bool,
    i: int,
)
    requires
        0 <= i < parts.len(),
        keep(parts[i]),
    ensures
        surviving(parts, keep).contains(parts[i].part_id),
    decreases parts.len(),
{
    let r = surviving(parts, keep);
    let head = surviving(parts.drop_last(), keep);
    if i == parts.len() - 1 {
        assert(r[r.len() - 1] == parts[i].part_id);
    } else {
        assert(parts.drop_last()[i] == parts[i]);
        survivor_is_kept(parts.drop_last(), keep, i);
        let k = choose|k: int| 0 <= k < head.len() && head[k] == parts[i].part_id;
        assert(r[k] == parts[i].part_id);
    }
}

/// Whether a part can hold terms with the prefix. Nothing being known of the
/// column, or neither a filter nor a range, is no reason to leave the part out;
/// that it has a filter and no range is: it has no term. Every part is kept for
/// the empty prefix.
pub open spec fn part_has_prefix(
    agg: Option<FtsSummaryAggView>,
    prefix: Seq<u8>,
) -> bool {
    match agg {
        None => true,
        Some(a) => match a.term_range_union {
            None => prefix.len() == 0 || a.term_bloom_union.len() == 0,
            Some(r) => overlaps(prefix, r.0, r.1),
        },
    }
}

/// Whether a filter can contain a term.
#[verifier::opaque]
pub open spec fn filter_has_term(bytes: Seq<u8>, term: Seq<char>) -> bool {
    may_contain(bytes, mask_of(bytes.len() / 64), encode_utf8(term))
}

/// Whether a filter can contain one of the terms, or all of them.
pub open spec fn filter_has_terms(bytes: Seq<u8>, terms: Seq<&str>, mode: BoolMode) -> bool {
    match mode {
        BoolMode::Or => exists|i: int|
            0 <= i < terms.len() && #[trigger] filter_has_term(bytes, terms[i]@),
        BoolMode::And => forall|i: int|
            0 <= i < terms.len() ==> #[trigger] filter_has_term(bytes, terms[i]@),
    }
}

/// Whether a part can hold the terms. Without a filter it can.
pub open spec fn part_has_terms(
    agg: Option<FtsSummaryAggView>,
    terms: Seq<&str>,
    mode: BoolMode,
) -> bool {
    match agg {
        None => true,
        Some(a) => a.term_bloom_union.len() == 0 || a.term_bloom_n_blocks == 0 || !is_filter(
            a.term_bloom_union,
        ) || filter_has_terms(a.term_bloom_union, terms, mode),
    }
}

/// Whether two closed ranges of ids meet.
pub open spec fn ids_meet(range: (i128, i128), query_min: i128, query_max: i128) -> bool {
    query_min <= range.1 && query_max >= range.0
}

fn part_overlaps_prefix(entry: &ManifestListEntry, column: &str, prefix: &[u8]) -> (r: bool)
    ensures
        r == part_has_prefix(lookup(entry@.fts_summary_agg, column@), prefix@),
{
    match entry.fts_summary_agg.get(column) {
        None => true,
        Some(a) => match &a.term_range_union {
            None => prefix.len() == 0 || a.term_bloom_union.len() == 0,
            Some(t) => prefix_overlaps_range(prefix, t.0.as_slice(), t.1.as_slice()),
        },
    }
}

fn bloom_has_term(bloom: &Bloom, term: &str) -> (r: bool)
    ensures
        r == filter_has_term(bloom@, term@),
{
    reveal(filter_has_term);
    bloom.contains(term.as_bytes())
}

/// Whether the filter can contain one of the terms, or all of them.
pub(crate) fn bloom_has_terms(bloom: &Bloom, terms: &[&str], mode: BoolMode) -> (r: bool)
    ensures
        r == filter_has_terms(bloom@, terms@, mode),
{
    let mut i: usize = 0;
    match mode {
        BoolMode::Or => {
            while i < terms.len()
                invariant
                    i <= terms@.len(),
                    mode == BoolMode::Or,
                    forall|k: int|
                        0 <= k < i ==> !#[trigger] filter_has_term(bloom@, terms@[k]@),
                decreases terms@.len() - i,
            {
                if bloom_has_term(bloom, terms[i]) {
                    assert(filter_has_term(bloom@, terms@[i as int]@));
                    return true;
                }
                i = i + 1;
            }
            false
        },
        BoolMode::And => {
            while i < terms.len()
                invariant
                    i <= terms@.len(),
                    mode == BoolMode::And,
                    forall|k: int| 0 <= k < i ==> #[trigger] filter_has_term(bloom@, terms@[k]@),
                decreases terms@.len() - i,
            {
                if !bloom_has_term(bloom, terms[i]) {
                    assert(!filter_has_term(bloom@, terms@[i as int]@));
                    return false;
                }
                i = i + 1;
            }
            true
        },
    }
}

fn part_matches_terms(
    entry: &ManifestListEntry,
    column: &str,
    query_terms: &[&str],
    mode: BoolMode,
) -> (r: bool)
    ensures
        r == part_has_terms(lookup(entry@.fts_summary_agg, column@), query_terms@, mode),
{
    match entry.fts_summary_agg.get(column) {
        None => true,
        Some(a) => {
            if a.term_bloom_union.len() == 0 || a.term_bloom_n_blocks == 0 {
                return true;
            }
            match Bloom::from_bytes(a.term_bloom_union.as_slice()) {
                None => true,
                Some(bloom) => bloom_has_terms(&bloom, query_terms, mode),
            }
        },
    }
}

// ---------------------------------------------------------------- pruning

/// The parts that can hold terms with the prefix.
pub fn prune_parts_for_fts_prefix(list: &ManifestList, column: &str, prefix: &[u8]) -> (r: Vec<
    PartId,
>)
    ensures
        r@ == surviving(
            list@.parts,
            |e: ManifestListEntryView| part_has_prefix(
                lookup(e.fts_summary_agg, column@),
                prefix@,
            ),
        ),
{
    let ghost keep = |e: ManifestListEntryView|
        part_has_prefix(lookup(e.fts_summary_agg, column@), prefix@);
    let ghost v = list@.parts;
    let mut out: Vec<PartId> = Vec::new();
    let mut i: usize = 0;
    proof {
        assert(v.take(0) =~= Seq::empty());
    }
    while i < list.parts.len()
        invariant
            i <= list.parts@.len(),
            v == part_views(list.parts@),
            keep == |e: ManifestListEntryView|
                part_has_prefix(lookup(e.fts_summary_agg, column@), prefix@),
            out@ == surviving(v.take(i as int), keep),
        decreases list.parts@.len() - i,
    {
        proof {
            assert(v.take(i as int + 1).drop_last() =~= v.take(i as int));
            assert(v.take(i as int + 1).last() == list.parts@[i as int]@);
        }
        if part_overlaps_prefix(&list.parts[i], column, prefix) {
            out.push(list.parts[i].part_id);
        }
        i = i + 1;
    }
    proof {
        assert(v.take(i as int) =~= v);
    }
    out
}

/// The parts that can hold the terms; none where there are no terms.
pub fn prune_parts_for_fts_terms(
    list: &ManifestList,
    column: &str,
    query_terms: &[&str],
    mode: BoolMode,
) -> (r: Vec<PartId>)
    ensures
        r@ == if query_terms@.len() == 0 {
            Seq::empty()
        } else {
            surviving(
                list@.parts,
                |e: ManifestListEntryView| part_has_terms(
                    lookup(e.fts_summary_agg, column@),
                    query_terms@,
                    mode,
                ),
            )
        },
{
    let ghost keep = |e: ManifestListEntryView|
        part_has_terms(lookup(e.fts_summary_agg, column@), query_terms@, mode);
    let ghost v = list@.parts;
    let mut out: Vec<PartId> = Vec::new();
    if query_terms.len() == 0 {
        return out;
    }
    let mut i: usize = 0;
    proof {
        assert(v.take(0) =~= Seq::empty());
    }
    while i < list.parts.len()
        invariant
            i <= list.parts@.len(),
            v == part_views(list.parts@),
            keep == |e: ManifestListEntryView|
                part_has_terms(lookup(e.fts_summary_agg, column@), query_terms@, mode),
            out@ == surviving(v.take(i as int), keep),
        decreases list.parts@.len() - i,
    {
        proof {
            assert(v.take(i as int + 1).drop_last() =~= v.take(i as int));
            assert(v.take(i as int + 1).last() == list.parts@[i as int]@);
        }
        if part_matches_terms(&list.parts[i], column, query_terms, mode) {
            out.push(list.parts[i].part_id);
        }
        i = i + 1;
    }
    proof {
        assert(v.take(i as int) =~= v);
    }
    out
}

/// The parts whose ids meet the closed range.
pub fn prune_parts_for_id_range(list: &ManifestList, query_min: i128, query_max: i128) -> (r: Vec<
    PartId,
>)
    ensures
        r@ == surviving(
            list@.parts,
            |e: ManifestListEntryView| ids_meet(e.id_range, query_min, query_max),
        ),
{
    let ghost keep = |e: ManifestListEntryView| ids_meet(e.id_range, query_min, query_max);
    let ghost v = list@.parts;
    let mut out: Vec<PartId> = Vec::new();
    let mut i: usize = 0;
    proof {
        assert(v.take(0) =~= Seq::empty());
    }
    while i < list.parts.len()
        invariant
            i <= list.parts@.len(),
            v == part_views(list.parts@),
            keep == |e: ManifestListEntryView| ids_meet(e.id_range, query_min, query_max),
            out@ == surviving(v.take(i as int), keep),
        decreases list.parts@.len() - i,
    {
        proof {
            assert(v.take(i as int + 1).drop_last() =~= v.take(i as int));
            assert(v.take(i as int + 1).last() == list.parts@[i as int]@);
        }
        let range = list.parts[i].id_range;
        if query_min <= range.1 && query_max >= range.0 {
            out.push(list.parts[i].part_id);
        }
        i = i + 1;
    }
    proof {
        assert(v.take(i as int) =~= v);
    }
    out
}

/// What a vector query has to do about a part.
#[derive(Debug)]
pub enum VectorCheck {
    /// Keep it: its sphere is unknown or of another dimension.
    Keep,
    /// Measure the distance to this centre, against this radius. All numbers
    /// are bit patterns of single-precision floats.
    Measure { centre: Vec<u32>, radius: u32 },
}

pub enum VectorCheckView {
    Keep,
    Measure { centre: Seq<u32>, radius: u32 },
}

impl View for VectorCheck {
    type V = VectorCheckView;

    open spec fn view(&self) -> VectorCheckView {
        match *self {
            VectorCheck::Keep => VectorCheckView::Keep,
            VectorCheck::Measure { centre, radius } => VectorCheckView::Measure {
                centre: centre@,
                radius,
            },
        }
    }
}

/// What a vector query of a dimension has to do about a part.
pub open spec fn vector_check_of(
    e: ManifestListEntryView,
    column: Seq<char>,
    dim: nat,
) -> VectorCheckView {
    match lookup(e.vector_summary_agg, column) {
        None => VectorCheckView::Keep,
        Some(a) => if a.centroid_envelope.len() == 0 || u32s_parsed(a.centroid_envelope).len()
            != dim {
            VectorCheckView::Keep
        } else {
            VectorCheckView::Measure {
                centre: u32s_parsed(a.centroid_envelope),
                radius: a.envelope_radius,
            }
        },
    }
}

/// The words of the centre of a sphere.
pub fn decode_centroid_envelope(bytes: &[u8]) -> (r: Vec<u32>)
    ensures
        r@ == u32s_parsed(bytes@),
{
    read_u32s(bytes)
}

/// What a vector query of a dimension has to do about a part.
pub fn vector_check(entry: &ManifestListEntry, column: &str, dim: usize) -> (r: VectorCheck)
    ensures
        r@ == vector_check_of(entry@, column@, dim as nat),
{
    match entry.vector_summary_agg.get(column) {
        None => VectorCheck::Keep,
        Some(a) => {
            if a.centroid_envelope.len() == 0 {
                return VectorCheck::Keep;
            }
            let centre = decode_centroid_envelope(a.centroid_envelope.as_slice());
            if centre.len() != dim {
                return VectorCheck::Keep;
            }
            VectorCheck::Measure { centre, radius: a.envelope_radius }
        },
    }
}

/// Parts to keep: those without a measure, and those measured to be near.
pub open spec fn near_parts(
    parts: Seq<ManifestListEntryView>,
    column: Seq<char>,
    dim: nat,
    near: Seq<bool>,
) -> Seq<PartId>
    decreases parts.len(),
{
    if parts.len() == 0 {
        Seq::empty()
    } else {
        let head = near_parts(parts.drop_last(), column, dim, near);
        if vector_check_of(parts.last(), column, dim) is Keep || near[parts.len() - 1] {
            head.push(parts.last().part_id)
        } else {
            head
        }
    }
}

/// The parts that a vector query of a dimension has to look into. `near` says
/// of each part whether its sphere, where it is measured, comes near enough.
pub fn prune_parts_for_vector(
    list: &ManifestList,
    column: &str,
    dim: usize,
    near: &[bool],
) -> (r: Vec<PartId>)
    requires
        near@.len() == list@.parts.len(),
    ensures
        r@ == near_parts(list@.parts, column@, dim as nat, near@),
{
    let ghost v = list@.parts;
    let mut out: Vec<PartId> = Vec::new();
    let mut i: usize = 0;
    proof {
        assert(v.take(0) =~= Seq::empty());
    }
    while i < list.parts.len()
        invariant
            i <= list.parts@.len(),
            v == part_views(list.parts@),
            near@.len() == v.len(),
            out@ == near_parts(v.take(i as int), column@, dim as nat, near@),
        decreases list.parts@.len() - i,
    {
        proof {
            assert(v.take(i as int + 1).drop_last() =~= v.take(i as int));
            assert(v.take(i as int + 1).last() == list.parts@[i as int]@);
        }
        let keep = match vector_check(&list.parts[i], column, dim) {
            VectorCheck::Keep => true,
            VectorCheck::Measure { .. } => near[i],
        };
        if keep {
            out.push(list.parts[i].part_id);
        }
        i = i + 1;
    }
    proof {
        assert(v.take(i as int) =~= v);
    }
    out
}

// ---------------------------------------------------------------- laws

/// Where a superfile can hold terms with the prefix, so can its part: no part is
/// left out that a look at its superfiles would keep.
pub proof fn prefix_pruning_is_monotone(
    s: Seq<SuperfileEntryView>,
    col: Seq<char>,
    k: int,
    prefix: Seq<u8>,
)
    requires
        0 <= k < s.len(),
        prefix.len() == 0 || may_have_prefix(s[k], col, prefix),
    ensures
        part_has_prefix(fts_agg(s, col), prefix),
{
    if prefix.len() == 0 {
        assert(upper_bound(prefix) is None);
    } else if all_fts(s, col) {
        assert(lookup(s[k].fts_summary, col) is Some);
        let t = lookup(s[k].fts_summary, col)->0;
        range_union_covers(s, col, k);
        let r = fts_agg(s, col)->0.term_range_union->0;
        lex_le_transitive(prefix, t.term_range.1, r.1);
        match upper_bound(prefix) {
            Some(u) => {
                if lex_le(u, r.0) {
                    lex_le_transitive(u, r.0, t.term_range.0);
                }
            },
            None => {},
        }
    }
}

/// Where a superfile can hold the terms, so can its part.
pub proof fn term_pruning_is_monotone(
    s: Seq<SuperfileEntryView>,
    col: Seq<char>,
    k: int,
    terms: Seq<&str>,
    mode: BoolMode,
)
    requires
        0 <= k < s.len(),
        may_have_terms(s[k], col, terms, mode),
    ensures
        part_has_terms(fts_agg(s, col), terms, mode),
{
    if all_fts(s, col) {
        reveal(filter_has_term);
        assert(lookup(s[k].fts_summary, col) is Some);
        let t = lookup(s[k].fts_summary, col)->0;
        match filter_union(s, col) {
            FilterUnion::Bytes(b) => {
                match mode {
                    BoolMode::Or => {
                        let i = choose|i: int|
                            0 <= i < terms.len() && #[trigger] filter_has_term(
                                t.term_bloom,
                                terms[i]@,
                            );
                        filter_union_keeps_keys(s, col, k, encode_utf8(terms[i]@));
                        assert(filter_has_term(b, terms[i]@));
                    },
                    BoolMode::And => {
                        assert forall|i: int| 0 <= i < terms.len() implies #[trigger]
                            filter_has_term(b, terms[i]@) by {
                            assert(filter_has_term(t.term_bloom, terms[i]@));
                            filter_union_keeps_keys(s, col, k, encode_utf8(terms[i]@));
                        }
                    },
                }
            },
            _ => {},
        }
    }
}

/// Where the ids of a superfile meet the range, so do those of its part.
pub proof fn id_pruning_is_monotone(
    s: Seq<SuperfileEntryView>,
    k: int,
    query_min: i128,
    query_max: i128,
)
    requires
        0 <= k < s.len(),
        ids_meet((s[k].id_min, s[k].id_max), query_min, query_max),
    ensures
        ids_meet((least_id(s), greatest_id(s)), query_min, query_max),
{
    id_range_covers(s);
}

/// Two ranges of ids meet just where some id lies in both. No part is left out
/// that can hold a queried id, and none is kept that cannot.
pub proof fn ids_meet_in_a_common_id(range: (i128, i128), query_min: i128, query_max: i128)
    ensures
        forall|x: int|
            range.0 <= x <= range.1 && #[trigger] between(query_min as int, x, query_max as int)
                ==> ids_meet(range, query_min, query_max),
        range.0 <= range.1 && query_min <= query_max && ids_meet(range, query_min, query_max)
            ==> exists|x: int|
            range.0 <= x <= range.1 && #[trigger] between(query_min as int, x, query_max as int),
{
    if range.0 <= range.1 && query_min <= query_max && ids_meet(range, query_min, query_max) {
        let x = if range.0 <= query_min {
            query_min as int
        } else {
            range.0 as int
        };
        assert(range.0 <= x <= range.1 && between(query_min as int, x, query_max as int));
    }
}

/// That a number lies between two others, or is one of them.
pub open spec fn between(lo: int, x: int, hi: int) -> bool {
    lo <= x <= hi
}

/// Pruning leaves the parts that pass, all of them and each once, in their
/// order.
pub proof fn survivors_are_the_parts_that_pass(
    parts: Seq<ManifestListEntryView>,
    keep: spec_fn(ManifestListEntryView) -> bool,
)
    ensures
        surviving(parts, keep) == parts.filter(keep).map_values(
            |e: ManifestListEntryView| e.part_id,
        ),
    decreases parts.len(),
{
    reveal(Seq::filter);
    let id = |e: ManifestListEntryView| e.part_id;
    if parts.len() > 0 {
        survivors_are_the_parts_that_pass(parts.drop_last(), keep);
        let head = parts.drop_last().filter(keep);
        if keep(parts.last()) {
            assert(head.push(parts.last()).map_values(id) =~= head.map_values(id).push(
                parts.last().part_id,
            ));
        }
    }
    assert(surviving(parts, keep) =~= parts.filter(keep).map_values(id));
}

/// A part that holds a queried id is among those that a search by ids looks
/// into.
pub proof fn parts_of_queried_ids_are_kept(
    parts: Seq<ManifestListEntryView>,
    query_min: i128,
    query_max: i128,
    i: int,
    x: int,
)
    requires
        0 <= i < parts.len(),
        parts[i].id_range.0 <= x <= parts[i].id_range.1,
        query_min <= x <= query_max,
    ensures
        surviving(
            parts,
            |e: ManifestListEntryView| ids_meet(e.id_range, query_min, query_max),
        ).contains(parts[i].part_id),
{
    ids_meet_in_a_common_id(parts[i].id_range, query_min, query_max);
    assert(between(query_min as int, x, query_max as int));
    survivor_is_kept(
        parts,
        |e: ManifestListEntryView| ids_meet(e.id_range, query_min, query_max),
        i,
    );
}

/// The test on a prefix and two bounds says just whether some string with the
/// prefix lies between them.
pub proof fn overlap_is_exact(prefix: Seq<u8>, min: Seq<u8>, max: Seq<u8>)
    requires
        lex_le(min, max),
    ensures
        overlaps(prefix, min, max) <==> exists|s: Seq<u8>| #[trigger]
            starts_with(s, prefix) && lex_le(min, s) && lex_le(s, max),
{
    if exists|s: Seq<u8>| #[trigger]
        starts_with(s, prefix) && lex_le(min, s) && lex_le(s, max) {
        let s = choose|s: Seq<u8>| #[trigger]
            starts_with(s, prefix) && lex_le(min, s) && lex_le(s, max);
        overlap_misses_nothing(prefix, min, max, s);
    }
    if overlaps(prefix, min, max) {
        if lex_le(min, prefix) {
            assert(prefix.take(prefix.len() as int) =~= prefix);
            assert(starts_with(prefix, prefix));
        } else {
            lex_le_total(min, prefix);
            lex_le_reflexive(min);
            prefix_is_a_range(prefix, min);
            assert(starts_with(min, prefix));
        }
    }
}

/// A part whose terms lie between bounds is kept for a prefix just where a term
/// with the prefix can lie between them.
pub proof fn prefix_pruning_is_exact(agg: FtsSummaryAggView, prefix: Seq<u8>)
    requires
        agg.term_range_union matches Some(r) && lex_le(r.0, r.1),
    ensures
        part_has_prefix(Some(agg), prefix) <==> exists|s: Seq<u8>| #[trigger]
            starts_with(s, prefix) && lex_le((agg.term_range_union->0).0, s) && lex_le(
                s,
                (agg.term_range_union->0).1,
            ),
{
    overlap_is_exact(prefix, (agg.term_range_union->0).0, (agg.term_range_union->0).1);
}

/// A part that nothing is known of is kept, whatever is asked for.
pub proof fn unknown_parts_are_kept(
    e: ManifestListEntryView,
    column: Seq<char>,
    prefix: Seq<u8>,
    terms: Seq<&str>,
    mode: BoolMode,
    dim: nat,
)
    ensures
        part_has_prefix(None, prefix),
        part_has_terms(None, terms, mode),
        lookup(e.vector_summary_agg, column) is None ==> vector_check_of(e, column, dim) is Keep,
{
}

/// A filter holds all terms where it holds each of them alone, and any of them
/// where it holds one of them alone.
pub proof fn terms_are_asked_for_one_by_one(
    agg: Option<FtsSummaryAggView>,
    terms: Seq<&str>,
    mode: BoolMode,
)
    requires
        terms.len() > 0,
    ensures
        part_has_terms(agg, terms, BoolMode::And) <==> forall|i: int|
            0 <= i < terms.len() ==> part_has_terms(agg, seq![#[trigger] terms[i]], mode),
        part_has_terms(agg, terms, BoolMode::Or) <==> exists|i: int|
            0 <= i < terms.len() && part_has_terms(agg, seq![#[trigger] terms[i]], mode),
{
    assert forall|i: int| 0 <= i < terms.len() implies part_has_terms(
        agg,
        seq![#[trigger] terms[i]],
        mode,
    ) == (agg matches Some(a) ==> (a.term_bloom_union.len() == 0 || a.term_bloom_n_blocks == 0
        || !is_filter(a.term_bloom_union) || filter_has_term(a.term_bloom_union, terms[i]@))) by {
        let one = seq![terms[i]];
        assert(one[0]@ == terms[i]@);
        match agg {
            Some(a) => {
                if filter_has_term(a.term_bloom_union, terms[i]@) {
                    assert(filter_has_term(a.term_bloom_union, one[0]@));
                }
            },
            None => {},
        }
    }
    if part_has_terms(agg, terms, BoolMode::Or) {
        match agg {
            Some(a) => {
                if filter_has_terms(a.term_bloom_union, terms, BoolMode::Or) {
                    let i = choose|i: int|
                        0 <= i < terms.len() && #[trigger] filter_has_term(
                            a.term_bloom_union,
                            terms[i]@,
                        );
                    assert(part_has_terms(agg, seq![terms[i]], mode));
                } else {
                    assert(part_has_terms(agg, seq![terms[0]], mode));
                }
            },
            None => {
                assert(part_has_terms(agg, seq![terms[0]], mode));
            },
        }
    }
    if part_has_terms(agg, terms, BoolMode::And) {
        assert forall|i: int| 0 <= i < terms.len() implies part_has_terms(
            agg,
            seq![#[trigger] terms[i]],
            mode,
        ) by {
            match agg {
                Some(a) => {
                    if filter_has_terms(a.term_bloom_union, terms, BoolMode::And) {
                        assert(filter_has_term(a.term_bloom_union, terms[i]@));
                    }
                },
                None => {},
            }
        }
    }
    if forall|i: int|
        0 <= i < terms.len() ==> part_has_terms(agg, seq![#[trigger] terms[i]], mode) {
        match agg {
            Some(a) => {
                assert forall|i: int|
                    0 <= i < terms.len() && a.term_bloom_union.len() != 0 && a.term_bloom_n_blocks
                        != 0 && is_filter(a.term_bloom_union) implies #[trigger] filter_has_term(
                    a.term_bloom_union,
                    terms[i]@,
                ) by {
                    assert(part_has_terms(agg, seq![terms[i]], mode));
                }
            },
            None => {},
        }
    }
}

/// A vector query measures a part against the words of the centre that was
/// stored and against its radius, where they are of its dimension, and keeps it
/// where they are not.
pub proof fn spheres_are_measured_as_stored(
    e: ManifestListEntryView,
    column: Seq<char>,
    words: Seq<u32>,
    dim: nat,
)
    requires
        lookup(e.vector_summary_agg, column) matches Some(a) && a.centroid_envelope == u32s_bytes(
            words,
        ),
    ensures
        words.len() == dim && dim > 0 ==> vector_check_of(e, column, dim)
            == (VectorCheckView::Measure {
            centre: words,
            radius: (lookup(e.vector_summary_agg, column)->0).envelope_radius,
        }),
        words.len() != dim || dim == 0 ==> vector_check_of(e, column, dim) is Keep,
{
    u32s_round_trip(words);
}

/// A vector query looks into the parts that are not measured and those that are
/// measured to be near, each once and in their order, and into no other.
pub proof fn near_parts_are_kept(
    parts: Seq<ManifestListEntryView>,
    column: Seq<char>,
    dim: nat,
    near: Seq<bool>,
)
    requires
        near.len() >= parts.len(),
    ensures
        near_parts(parts, column, dim, near) == Seq::new(
            parts.len(),
            |i: int| (parts[i], near[i]),
        ).filter(
            |p: (ManifestListEntryView, bool)| vector_check_of(p.0, column, dim) is Keep || p.1,
        ).map_values(|p: (ManifestListEntryView, bool)| p.0.part_id),
    decreases parts.len(),
{
    reveal(Seq::filter);
    let pairs = Seq::new(parts.len(), |i: int| (parts[i], near[i]));
    let keep = |p: (ManifestListEntryView, bool)|
        vector_check_of(p.0, column, dim) is Keep || p.1;
    let id = |p: (ManifestListEntryView, bool)| p.0.part_id;
    if parts.len() > 0 {
        let rest = parts.drop_last();
        near_parts_are_kept(rest, column, dim, near);
        assert(pairs.drop_last() =~= Seq::new(rest.len(), |i: int| (rest[i], near[i])));
        let head = pairs.drop_last().filter(keep);
        if keep(pairs.last()) {
            assert(head.push(pairs.last()).map_values(id) =~= head.map_values(id).push(
                parts.last().part_id,
            ));
        }
    }
    assert(near_parts(parts, column, dim, near) =~= pairs.filter(keep).map_values(id));
}

} // verus!
