//! Nearest vectors over all superfiles.

use vstd::prelude::*;

use crate::error::QueryError;
use crate::ieee::{is_nan32, number32};
use crate::manifest::entry::SuperfileUri;
use crate::order::{
    before, float_key, float_keys_follow_numbers, float_place, is_stable_order,
    lemma_order_complete, stable_order,
};

verus! {

/// A row that was found.
#[derive(Clone, Copy, PartialEq, Eq, Structural, Debug)]
pub struct SuperfileHit {
    /// The superfile that holds it.
    pub segment: SuperfileUri,
    /// Its place in the superfile.
    pub local_doc_id: u32,
    /// Its distance, as bit pattern of a single-precision float.
    pub score: u32,
}

/// The rows that were found in a superfile.
pub open spec fn tagged(segment: SuperfileUri, hits: Seq<(u32, u32)>) -> Seq<SuperfileHit> {
    Seq::new(
        hits.len(),
        |i: int| SuperfileHit { segment, local_doc_id: hits[i].0, score: hits[i].1 },
    )
}

/// The rows that were found in a superfile.
pub fn tag_hits(segment: SuperfileUri, hits: &[(u32, u32)]) -> (r: Vec<SuperfileHit>)
    ensures
        r@ == tagged(segment, hits@),
{
    let mut r: Vec<SuperfileHit> = Vec::new();
    let mut i: usize = 0;
    while i < hits.len()
        invariant
            i <= hits@.len(),
            r@.len() == i,
            forall|k: int| 0 <= k < i ==> #[trigger] r@[k] == tagged(segment, hits@)[k],
        decreases hits@.len() - i,
    {
        r.push(SuperfileHit { segment, local_doc_id: hits[i].0, score: hits[i].1 });
        i = i + 1;
    }
    assert(r@ =~= tagged(segment, hits@));
    r
}

/// Lists of rows, one behind the other.
pub open spec fn flattened(s: Seq<Vec<SuperfileHit>>) -> Seq<SuperfileHit>
    decreases s.len(),
{
    if s.len() == 0 {
        Seq::empty()
    } else {
        flattened(s.drop_last()) + s.last()@
    }
}

/// The keys of rows.
pub open spec fn hit_keys(s: Seq<SuperfileHit>) -> Seq<i64> {
    Seq::new(s.len(), |i: int| float_key(s[i].score))
}

/// The first `k` rows in stable ascending order of distance.
pub open spec fn is_nearest(all: Seq<SuperfileHit>, k: nat, r: Seq<SuperfileHit>) -> bool {
    exists|order: Seq<usize>| #[trigger]
        is_stable_order(hit_keys(all), order) && r.len() == (if k < all.len() {
            k
        } else {
            all.len()
        }) && forall|i: int| 0 <= i < r.len() ==> #[trigger] r[i] == all[order[i] as int]
}

/// The `k` rows with the least distances, nearest first. Rows of one distance
/// stay in order, and what is no number is farthest.
pub fn top_k_ascending(per_segment: &[Vec<SuperfileHit>], k: usize) -> (r: Vec<SuperfileHit>)
    ensures
        is_nearest(flattened(per_segment@), k as nat, r@),
{
    let mut all: Vec<SuperfileHit> = Vec::new();
    let mut keys: Vec<i64> = Vec::new();
    let mut i: usize = 0;
    proof {
        assert(per_segment@.take(0) =~= Seq::empty());
    }
    while i < per_segment.len()
        invariant
            i <= per_segment@.len(),
            all@ == flattened(per_segment@.take(i as int)),
            keys@ == hit_keys(all@),
        decreases per_segment@.len() - i,
    {
        let s = &per_segment[i];
        let ghost head = all@;
        let mut j: usize = 0;
        proof {
            assert(s@.take(0) =~= Seq::empty());
            assert(head + s@.take(0) =~= head);
        }
        while j < s.len()
            invariant
                j <= s@.len(),
                all@ == head + s@.take(j as int),
                keys@ == hit_keys(all@),
            decreases s@.len() - j,
        {
            let h = s[j];
            let ghost before = all@;
            all.push(h);
            keys.push(float_place(h.score));
            proof {
                assert(head + s@.take(j as int + 1) =~= (head + s@.take(j as int)).push(h));
                assert(keys@ =~= hit_keys(all@));
            }
            j = j + 1;
        }
        proof {
            assert(s@.take(j as int) =~= s@);
            assert(per_segment@.take(i as int + 1).drop_last() =~= per_segment@.take(i as int));
        }
        i = i + 1;
    }
    proof {
        assert(per_segment@.take(i as int) =~= per_segment@);
    }
    let order = stable_order(keys.as_slice());
    let n: usize = if k < all.len() {
        k
    } else {
        all.len()
    };
    let mut r: Vec<SuperfileHit> = Vec::new();
    let mut i: usize = 0;
    while i < n
        invariant
            i <= n,
            n <= all@.len(),
            is_stable_order(keys@, order@),
            keys@ == hit_keys(all@),
            r@.len() == i,
            forall|k: int| 0 <= k < i ==> #[trigger] r@[k] == all@[order@[k] as int],
        decreases n - i,
    {
        r.push(all[order[i]]);
        i = i + 1;
    }
    proof {
        assert(is_stable_order(hit_keys(all@), order@));
    }
    r
}

/// No row that was left out is nearer than one that was kept.
pub proof fn nearest_rows_are_kept(all: Seq<SuperfileHit>, k: nat, order: Seq<usize>, i: int, j: int)
    requires
        is_stable_order(hit_keys(all), order),
        0 <= i < k,
        k <= j < all.len(),
    ensures
        float_key(all[order[i] as int].score) <= float_key(all[order[j] as int].score),
{
    assert(crate::order::before(hit_keys(all), order[i] as int, order[j] as int));
}

/// Whether a superfile's search failed.
pub open spec fn search_failed(r: Result<Vec<SuperfileHit>, QueryError>) -> bool {
    r is Err
}

/// The rows of searches that succeeded.
pub open spec fn found(s: Seq<Result<Vec<SuperfileHit>, QueryError>>) -> Seq<Vec<SuperfileHit>> {
    Seq::new(s.len(), |i: int| s[i]->Ok_0)
}

/// The result of a search for the `k` nearest rows, from the results of the
/// superfiles: an error of one of them, or the nearest of all rows.
pub fn merge_search(per_segment: Vec<Result<Vec<SuperfileHit>, QueryError>>, k: usize) -> (r: Result<
    Vec<SuperfileHit>,
    QueryError,
>)
    ensures
        match r {
            Ok(hits) => (forall|i: int|
                0 <= i < per_segment@.len() ==> !search_failed(#[trigger] per_segment@[i]))
                && is_nearest(flattened(found(per_segment@)), k as nat, hits@),
            Err(e) => exists|i: int|
                0 <= i < per_segment@.len() && #[trigger] per_segment@[i] == Err::<
                    Vec<SuperfileHit>,
                    QueryError,
                >(e) && forall|j: int| 0 <= j < i ==> !search_failed(#[trigger] per_segment@[j]),
        },
{
    let ghost all = per_segment@;
    let mut rest = per_segment;
    let mut i: usize = 0;
    while i < rest.len() && rest[i].is_ok()
        invariant
            rest@ == all,
            i <= all.len(),
            forall|j: int| 0 <= j < i ==> !search_failed(#[trigger] all[j]),
        decreases all.len() - i,
    {
        i = i + 1;
    }
    if i < rest.len() {
        proof {
            assert(all[i as int] is Err);
        }
        if let Err(e) = rest.remove(i) {
            return Err(e);
        }
    }
    let mut lists: Vec<Vec<SuperfileHit>> = Vec::new();
    let n: usize = rest.len();
    let mut j: usize = 0;
    while j < n
        invariant
            n == all.len(),
            j <= n,
            rest@ == all.skip(j as int),
            forall|k: int| 0 <= k < n ==> !search_failed(#[trigger] all[k]),
            lists@ == found(all).take(j as int),
        decreases n - j,
    {
        let x = rest.remove(0);
        proof {
            assert(x == all[j as int]);
            assert(rest@ =~= all.skip(j as int + 1));
        }
        if let Ok(v) = x {
            lists.push(v);
            proof {
                assert(lists@ =~= found(all).take(j as int + 1));
            }
        }
        j = j + 1;
    }
    proof {
        assert(found(all).take(j as int) =~= found(all));
    }
    Ok(top_k_ascending(lists.as_slice(), k))
}

// ---------------------------------------------------------------- laws

/// That a distance is less than another: its number is less, or the other is no
/// number.
pub open spec fn nearer(a: u32, b: u32) -> bool {
    !is_nan32(a) && (is_nan32(b) || number32(a) < number32(b))
}

/// That rows are those at the given places, each place once: none is nearer
/// than one before it, those of one distance stay in order, and none at another
/// place is nearer than any of them.
pub open spec fn nearest_at(
    all: Seq<SuperfileHit>,
    r: Seq<SuperfileHit>,
    places: Seq<int>,
) -> bool {
    &&& places.len() == r.len()
    &&& forall|i: int| 0 <= i < r.len() ==> 0 <= #[trigger] places[i] < all.len()
    &&& forall|i: int| 0 <= i < r.len() ==> #[trigger] r[i] == all[places[i]]
    &&& forall|i: int, j: int|
        0 <= i < j < r.len() ==> (#[trigger] places[i]) != (#[trigger] places[j]) && !nearer(
            r[j].score,
            r[i].score,
        ) && (nearer(r[i].score, r[j].score) || places[i] < places[j])
    &&& forall|p: int, i: int|
        0 <= p < all.len() && 0 <= i < r.len() && !places.contains(p) ==> !nearer(
            (#[trigger] all[p]).score,
            (#[trigger] r[i]).score,
        )
}

/// A search gives the `k` nearest of all rows, or all rows where there are no
/// more, nearest first.
pub proof fn search_gives_the_nearest(all: Seq<SuperfileHit>, k: nat, r: Seq<SuperfileHit>)
    requires
        is_nearest(all, k, r),
    ensures
        r.len() <= k,
        r.len() <= all.len(),
        r.len() == k || r.len() == all.len(),
        exists|places: Seq<int>| nearest_at(all, r, places),
{
    let keys = hit_keys(all);
    let order = choose|order: Seq<usize>| #[trigger]
        is_stable_order(hit_keys(all), order) && r.len() == (if k < all.len() {
            k
        } else {
            all.len()
        }) && forall|i: int| 0 <= i < r.len() ==> #[trigger] r[i] == all[order[i] as int];
    let places = Seq::new(r.len(), |i: int| order[i] as int);
    assert forall|i: int, j: int| 0 <= i < j < r.len() implies (#[trigger] places[i]) != (
    #[trigger] places[j]) && !nearer(r[j].score, r[i].score) && (nearer(r[i].score, r[j].score)
        || places[i] < places[j]) by {
        assert(before(keys, order[i] as int, order[j] as int));
        assert(r[i] == all[order[i] as int] && r[j] == all[order[j] as int]);
        float_keys_follow_numbers(r[i].score, r[j].score);
        float_keys_follow_numbers(r[j].score, r[i].score);
    }
    assert forall|p: int, i: int|
        0 <= p < all.len() && 0 <= i < r.len() && !places.contains(p) implies !nearer(
        (#[trigger] all[p]).score,
        (#[trigger] r[i]).score,
    ) by {
        lemma_order_complete(keys, order, p);
        let m = choose|m: int| 0 <= m < order.len() && #[trigger] order[m] == p;
        if m < r.len() {
            assert(places[m] == p);
        }
        assert(before(keys, order[i] as int, order[m] as int));
        assert(r[i] == all[order[i] as int]);
        float_keys_follow_numbers(r[i].score, all[p].score);
        float_keys_follow_numbers(all[p].score, r[i].score);
    }
    assert(nearest_at(all, r, places));
}

/// How many rows the first `n` lists hold.
pub open spec fn rows_before(s: Seq<Vec<SuperfileHit>>, n: int) -> nat
    decreases n,
{
    if n <= 0 {
        0
    } else {
        rows_before(s, n - 1) + s[n - 1]@.len()
    }
}

/// There are as many rows as the superfiles hold together.
pub proof fn all_rows_are_counted(s: Seq<Vec<SuperfileHit>>)
    ensures
        flattened(s).len() == rows_before(s, s.len() as int),
    decreases s.len(),
{
    if s.len() > 0 {
        all_rows_are_counted(s.drop_last());
        lemma_rows_before(s, s.drop_last(), s.len() - 1);
    }
}

/// Every row of every superfile is among all rows, behind those of the
/// superfiles before.
pub proof fn every_row_takes_part(s: Seq<Vec<SuperfileHit>>, i: int, j: int)
    requires
        0 <= i < s.len(),
        0 <= j < s[i]@.len(),
    ensures
        rows_before(s, i) + j < flattened(s).len(),
        flattened(s)[rows_before(s, i) + j] == s[i]@[j],
    decreases s.len(),
{
    let rest = s.drop_last();
    lemma_rows_before(s, rest, i);
    if i < rest.len() {
        every_row_takes_part(rest, i, j);
    } else {
        all_rows_are_counted(rest);
    }
}

proof fn lemma_rows_before(s: Seq<Vec<SuperfileHit>>, t: Seq<Vec<SuperfileHit>>, n: int)
    requires
        n <= t.len() <= s.len(),
        forall|i: int| 0 <= i < t.len() ==> s[i] == t[i],
    ensures
        rows_before(s, n) == rows_before(t, n),
    decreases n,
{
    if n > 0 {
        lemma_rows_before(s, t, n - 1);
    }
}

/// A row names the superfile that it was found in, its place there and its
/// distance.
pub proof fn rows_name_their_superfile(segment: SuperfileUri, hits: Seq<(u32, u32)>, i: int)
    requires
        0 <= i < hits.len(),
    ensures
        tagged(segment, hits).len() == hits.len(),
        tagged(segment, hits)[i].segment == segment,
        tagged(segment, hits)[i].local_doc_id == hits[i].0,
        tagged(segment, hits)[i].score == hits[i].1,
{
}

} // verus!
