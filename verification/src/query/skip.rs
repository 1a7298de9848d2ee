//! Which superfiles a query can leave out.

use std::sync::Arc;
use vstd::prelude::*;
use vstd::utf8::encode_utf8;

use crate::column_map::lookup;
use crate::ieee::{is_nan32, number32};
use crate::lex::{lex_le, starts_with};
use crate::manifest::entry::{SuperfileEntry, SuperfileEntryView};
use crate::manifest::list_prune::{
    bloom_has_terms, filter_has_term, filter_has_terms, overlap_is_exact, overlap_misses_nothing,
    overlaps, prefix_overlaps_range, BoolMode,
};
use crate::order::{
    before, float_key, float_keys_follow_numbers, float_place, is_stable_order,
    stable_order,
};
use crate::query::vector::nearer;
use crate::writer::publish::{summarizes, summary_admits_terms, terms_ascend};

verus! {

/// Whether a superfile can hold the terms. Nothing being known of the column,
/// it can.
pub open spec fn may_have_terms(
    e: SuperfileEntryView,
    column: Seq<char>,
    terms: Seq<&str>,
    mode: BoolMode,
) -> bool {
    match lookup(e.fts_summary, column) {
        None => true,
        Some(t) => filter_has_terms(t.term_bloom, terms, mode),
    }
}

/// Whether a superfile can hold terms with the prefix. Nothing being known of
/// the column, it can; without any term it cannot.
pub open spec fn may_have_prefix(
    e: SuperfileEntryView,
    column: Seq<char>,
    prefix: Seq<u8>,
) -> bool {
    match lookup(e.fts_summary, column) {
        None => true,
        Some(t) => if t.term_range.0.len() == 0 && t.term_range.1.len() == 0 {
            false
        } else {
            overlaps(prefix, t.term_range.0, t.term_range.1)
        },
    }
}

fn all_kept(n: usize) -> (r: Vec<bool>)
    ensures
        r@ == Seq::new(n as nat, |i: int| true),
{
    let mut r: Vec<bool> = Vec::new();
    let mut i: usize = 0;
    while i < n
        invariant
            i <= n,
            r@.len() == i,
            forall|k: int| 0 <= k < i ==> r@[k],
        decreases n - i,
    {
        r.push(true);
        i = i + 1;
    }
    assert(r@ =~= Seq::new(n as nat, |i: int| true));
    r
}

/// For each superfile whether to look into it for the terms. Without terms all
/// are kept.
pub fn fts_bloom_skip(
    superfiles: &[Arc<SuperfileEntry>],
    column: &str,
    query_terms: &[&str],
    mode: BoolMode,
) -> (r: Vec<bool>)
    ensures
        r@ == Seq::new(
            superfiles@.len(),
            |i: int|
                query_terms@.len() == 0 || may_have_terms(
                    superfiles@[i]@,
                    column@,
                    query_terms@,
                    mode,
                ),
        ),
{
    if query_terms.len() == 0 {
        let r = all_kept(superfiles.len());
        assert(r@ =~= Seq::new(
            superfiles@.len(),
            |i: int|
                query_terms@.len() == 0 || may_have_terms(
                    superfiles@[i]@,
                    column@,
                    query_terms@,
                    mode,
                ),
        ));
        return r;
    }
    let mut r: Vec<bool> = Vec::new();
    let mut i: usize = 0;
    while i < superfiles.len()
        invariant
            i <= superfiles@.len(),
            r@.len() == i,
            forall|k: int|
                0 <= k < i ==> #[trigger] r@[k] == may_have_terms(
                    superfiles@[k]@,
                    column@,
                    query_terms@,
                    mode,
                ),
        decreases superfiles@.len() - i,
    {
        let keep = match superfiles[i].fts_summary.get(column) {
            None => true,
            Some(t) => bloom_has_terms(&t.term_bloom, query_terms, mode),
        };
        r.push(keep);
        i = i + 1;
    }
    assert(r@ =~= Seq::new(
        superfiles@.len(),
        |i: int|
            query_terms@.len() == 0 || may_have_terms(
                superfiles@[i]@,
                column@,
                query_terms@,
                mode,
            ),
    ));
    r
}

/// For each superfile whether to look into it for the prefix. Every superfile
/// is kept for the empty prefix.
pub fn fts_prefix_skip(superfiles: &[Arc<SuperfileEntry>], column: &str, prefix: &[u8]) -> (r: Vec<
    bool,
>)
    ensures
        r@ == Seq::new(
            superfiles@.len(),
            |i: int| prefix@.len() == 0 || may_have_prefix(superfiles@[i]@, column@, prefix@),
        ),
{
    if prefix.len() == 0 {
        let r = all_kept(superfiles.len());
        assert(r@ =~= Seq::new(
            superfiles@.len(),
            |i: int| prefix@.len() == 0 || may_have_prefix(superfiles@[i]@, column@, prefix@),
        ));
        return r;
    }
    let mut r: Vec<bool> = Vec::new();
    let mut i: usize = 0;
    while i < superfiles.len()
        invariant
            i <= superfiles@.len(),
            r@.len() == i,
            forall|k: int|
                0 <= k < i ==> #[trigger] r@[k] == may_have_prefix(
                    superfiles@[k]@,
                    column@,
                    prefix@,
                ),
        decreases superfiles@.len() - i,
    {
        let keep = match superfiles[i].fts_summary.get(column) {
            None => true,
            Some(t) => {
                if t.term_range.0.len() == 0 && t.term_range.1.len() == 0 {
                    false
                } else {
                    prefix_overlaps_range(
                        prefix,
                        t.term_range.0.as_slice(),
                        t.term_range.1.as_slice(),
                    )
                }
            },
        };
        r.push(keep);
        i = i + 1;
    }
    assert(r@ =~= Seq::new(
        superfiles@.len(),
        |i: int| prefix@.len() == 0 || may_have_prefix(superfiles@[i]@, column@, prefix@),
    ));
    r
}

/// For each superfile whether to look into it for a vector: always, since what
/// is near enough is known only during the search.
pub fn vector_centroid_skip(superfiles: &[Arc<SuperfileEntry>]) -> (r: Vec<bool>)
    ensures
        r@ == Seq::new(superfiles@.len(), |i: int| true),
{
    all_kept(superfiles.len())
}

/// The bit pattern of positive infinity.
pub const INFINITY_BITS: u32 = 0x7f80_0000;

/// The superfile's centre for a query of the dimension.
pub open spec fn centre_of(e: SuperfileEntryView, column: Seq<char>, dim: nat) -> Option<
    Seq<u32>,
> {
    match lookup(e.vector_summary, column) {
        Some(v) => if v.centroid.len() == dim {
            Some(v.centroid)
        } else {
            None
        },
        None => None,
    }
}

/// The superfile's centre for a query of the dimension; none where it is not
/// known or has another dimension.
pub fn centroid_for<'a>(entry: &'a SuperfileEntry, column: &str, dim: usize) -> (r: Option<
    &'a Vec<u32>,
>)
    ensures
        match r {
            Some(c) => centre_of(entry@, column@, dim as nat) == Some(c@),
            None => centre_of(entry@, column@, dim as nat) is None,
        },
{
    match entry.vector_summary.get(column) {
        Some(v) => {
            if v.centroid.len() == dim {
                Some(&v.centroid)
            } else {
                None
            }
        },
        None => None,
    }
}

/// The keys of distances: infinity where there is none.
pub open spec fn distance_keys(distances: Seq<Option<u32>>) -> Seq<i64> {
    Seq::new(
        distances.len(),
        |i: int|
            float_key(
                match distances[i] {
                    Some(d) => d,
                    None => INFINITY_BITS,
                },
            ),
    )
}

/// The places of superfiles by ascending distance of their centres, given as
/// bit patterns of floats. A superfile without a distance comes after those
/// with a finite one.
pub fn superfiles_sorted_by_centroid_distance(distances: &[Option<u32>]) -> (r: Vec<usize>)
    ensures
        is_stable_order(distance_keys(distances@), r@),
{
    let mut keys: Vec<i64> = Vec::new();
    let mut i: usize = 0;
    while i < distances.len()
        invariant
            i <= distances@.len(),
            keys@.len() == i,
            forall|k: int| 0 <= k < i ==> #[trigger] keys@[k] == distance_keys(distances@)[k],
        decreases distances@.len() - i,
    {
        let d: u32 = match distances[i] {
            Some(d) => d,
            None => INFINITY_BITS,
        };
        keys.push(float_place(d));
        i = i + 1;
    }
    assert(keys@ =~= distance_keys(distances@));
    stable_order(keys.as_slice())
}

// ---------------------------------------------------------------- laws

/// That a superfile holds one of the queried terms, or all of them.
pub open spec fn holds_terms(held: Seq<Seq<u8>>, terms: Seq<&str>, mode: BoolMode) -> bool {
    match mode {
        BoolMode::Or => exists|i: int|
            0 <= i < terms.len() && held.contains(encode_utf8(#[trigger] terms[i]@)),
        BoolMode::And => forall|i: int|
            0 <= i < terms.len() ==> held.contains(encode_utf8(#[trigger] terms[i]@)),
    }
}

/// No superfile is left out that holds what is asked for.
pub proof fn holders_of_terms_are_kept(
    e: SuperfileEntryView,
    column: Seq<char>,
    held: Seq<Seq<u8>>,
    terms: Seq<&str>,
    mode: BoolMode,
)
    requires
        lookup(e.fts_summary, column) matches Some(s) && summarizes(s, held),
        terms_ascend(held),
        holds_terms(held, terms, mode),
    ensures
        may_have_terms(e, column, terms, mode),
{
    reveal(filter_has_term);
    let s = lookup(e.fts_summary, column)->0;
    assert forall|i: int| 0 <= i < terms.len() && held.contains(encode_utf8(terms[i]@)) implies
        #[trigger] filter_has_term(s.term_bloom, terms[i]@) by {
        let t = choose|t: int| 0 <= t < held.len() && held[t] == encode_utf8(terms[i]@);
        summary_admits_terms(s, held, t);
    }
    match mode {
        BoolMode::Or => {
            let i = choose|i: int|
                0 <= i < terms.len() && held.contains(encode_utf8(#[trigger] terms[i]@));
            assert(filter_has_term(s.term_bloom, terms[i]@));
        },
        BoolMode::And => {},
    }
}

/// No superfile is left out that holds a term with the prefix. One whose only
/// term is empty counts as one without terms.
pub proof fn holders_of_prefix_are_kept(
    e: SuperfileEntryView,
    column: Seq<char>,
    held: Seq<Seq<u8>>,
    t: int,
    prefix: Seq<u8>,
)
    requires
        lookup(e.fts_summary, column) matches Some(s) && summarizes(s, held),
        terms_ascend(held),
        0 <= t < held.len(),
        held.last().len() > 0,
        starts_with(held[t], prefix),
    ensures
        may_have_prefix(e, column, prefix),
{
    let s = lookup(e.fts_summary, column)->0;
    summary_admits_terms(s, held, t);
    overlap_misses_nothing(prefix, s.term_range.0, s.term_range.1, held[t]);
}

/// A superfile that nothing is known of is looked into, whatever is asked for.
pub proof fn unknown_superfiles_are_kept(
    e: SuperfileEntryView,
    column: Seq<char>,
    prefix: Seq<u8>,
    terms: Seq<&str>,
    mode: BoolMode,
)
    requires
        lookup(e.fts_summary, column) is None,
    ensures
        may_have_terms(e, column, terms, mode),
        may_have_prefix(e, column, prefix),
{
}

/// A superfile whose terms lie between bounds is looked into for a prefix just
/// where a term with the prefix can lie between them.
pub proof fn prefix_skip_is_exact(e: SuperfileEntryView, column: Seq<char>, prefix: Seq<u8>)
    requires
        lookup(e.fts_summary, column) matches Some(t) && lex_le(t.term_range.0, t.term_range.1)
            && t.term_range.1.len() > 0,
    ensures
        ({
            let r = (lookup(e.fts_summary, column)->0).term_range;
            may_have_prefix(e, column, prefix) <==> exists|s: Seq<u8>| #[trigger]
                starts_with(s, prefix) && lex_le(r.0, s) && lex_le(s, r.1)
        }),
{
    let r = (lookup(e.fts_summary, column)->0).term_range;
    overlap_is_exact(prefix, r.0, r.1);
}

/// A superfile can hold all terms where it can hold each of them alone, and any
/// of them where it can hold one of them alone.
pub proof fn skips_ask_for_terms_one_by_one(
    e: SuperfileEntryView,
    column: Seq<char>,
    terms: Seq<&str>,
    mode: BoolMode,
)
    requires
        terms.len() > 0,
    ensures
        may_have_terms(e, column, terms, BoolMode::And) <==> forall|i: int|
            0 <= i < terms.len() ==> may_have_terms(e, column, seq![#[trigger] terms[i]], mode),
        may_have_terms(e, column, terms, BoolMode::Or) <==> exists|i: int|
            0 <= i < terms.len() && may_have_terms(e, column, seq![#[trigger] terms[i]], mode),
{
    match lookup(e.fts_summary, column) {
        None => {
            assert(may_have_terms(e, column, seq![terms[0]], mode));
        },
        Some(t) => {
            assert forall|i: int| 0 <= i < terms.len() implies may_have_terms(
                e,
                column,
                seq![#[trigger] terms[i]],
                mode,
            ) == filter_has_term(t.term_bloom, terms[i]@) by {
                let one = seq![terms[i]];
                assert(one[0]@ == terms[i]@);
                if filter_has_term(t.term_bloom, terms[i]@) {
                    assert(filter_has_term(t.term_bloom, one[0]@));
                }
            }
            if may_have_terms(e, column, terms, BoolMode::Or) {
                let i = choose|i: int|
                    0 <= i < terms.len() && #[trigger] filter_has_term(t.term_bloom, terms[i]@);
                assert(may_have_terms(e, column, seq![terms[i]], mode));
            }
            if may_have_terms(e, column, terms, BoolMode::And) {
                assert forall|i: int| 0 <= i < terms.len() implies may_have_terms(
                    e,
                    column,
                    seq![#[trigger] terms[i]],
                    mode,
                ) by {
                    assert(filter_has_term(t.term_bloom, terms[i]@));
                }
            }
            if forall|i: int|
                0 <= i < terms.len() ==> may_have_terms(e, column, seq![#[trigger] terms[i]], mode) {
                assert forall|i: int| 0 <= i < terms.len() implies #[trigger] filter_has_term(
                    t.term_bloom,
                    terms[i]@,
                ) by {
                    assert(may_have_terms(e, column, seq![terms[i]], mode));
                }
            }
        },
    }
}

/// Superfiles come by the distances of their centres: none that is nearer comes
/// after one that is farther, and one without a distance comes after every one
/// at a finite distance. No superfile comes twice.
pub proof fn superfiles_come_by_distance(distances: Seq<Option<u32>>, order: Seq<usize>, i: int, j: int)
    requires
        is_stable_order(distance_keys(distances), order),
        0 <= i < j < order.len(),
    ensures
        order.len() == distances.len(),
        order[i] < distances.len() && order[j] < distances.len() && order[i] != order[j],
        match (distances[order[i] as int], distances[order[j] as int]) {
            (Some(a), Some(b)) => !nearer(b, a),
            (None, Some(b)) => is_nan32(b) || number32(b) >= number32(0x7f80_0000),
            (Some(a), None) => !is_nan32(a),
            (None, None) => order[i] < order[j],
        },
{
    let keys = distance_keys(distances);
    assert(before(keys, order[i] as int, order[j] as int));
    let a = match distances[order[i] as int] {
        Some(d) => d,
        None => INFINITY_BITS,
    };
    let b = match distances[order[j] as int] {
        Some(d) => d,
        None => INFINITY_BITS,
    };
    float_keys_follow_numbers(a, b);
    float_keys_follow_numbers(b, a);
}

/// The centre of a superfile is the one that it keeps for the column, where it
/// has the dimension of the query; else it has none.
pub proof fn centres_are_those_of_the_column(
    e: SuperfileEntryView,
    column: Seq<char>,
    dim: nat,
    centre: Seq<u32>,
)
    ensures
        centre_of(e, column, dim) == Some(centre) <==> (lookup(e.vector_summary, column) matches Some(
            v,
        ) && v.centroid == centre && centre.len() == dim),
        centre_of(e, column, dim) is Some ==> (centre_of(e, column, dim)->0).len() == dim,
{
}

} // verus!
