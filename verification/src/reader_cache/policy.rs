//! Which superfiles leave the disk cache when room is needed.

use vstd::prelude::*;

use crate::manifest::entry::SuperfileUri;

verus! {

/// A superfile that could leave.
#[derive(Clone, Copy, PartialEq, Eq, Structural, Debug)]
pub struct EvictionCandidate {
    pub uri: SuperfileUri,
    pub size_bytes: u64,
    pub last_access_us: u64,
}

/// That no superfile is among the candidates twice.
pub open spec fn distinct(s: Seq<EvictionCandidate>) -> bool {
    forall|i: int, j: int| 0 <= i < j < s.len() ==> (#[trigger] s[i]).uri != (#[trigger] s[j]).uri
}

/// That candidates stand in a map.
pub open spec fn stand_in(s: Seq<EvictionCandidate>, m: Map<u128, (u64, u64, bool)>) -> bool {
    forall|i: int|
        0 <= i < s.len() ==> m.dom().contains((#[trigger] s[i]).uri.0) && m[s[i].uri.0].0
            == s[i].size_bytes && m[s[i].uri.0].1 == s[i].last_access_us
}

/// That a superfile is among the candidates.
pub open spec fn is_candidate(s: Seq<EvictionCandidate>, k: u128) -> bool {
    exists|i: int| 0 <= i < s.len() && (#[trigger] s[i]).uri.0 == k
}

/// That the candidates are the superfiles of a map, each once.
pub open spec fn candidates_of(s: Seq<EvictionCandidate>, m: Map<u128, (u64, u64, bool)>) -> bool {
    &&& distinct(s)
    &&& stand_in(s, m)
    &&& forall|k: u128| #[trigger] m.dom().contains(k) ==> is_candidate(s, k)
}

/// That a superfile is in use and must stay.
pub open spec fn is_pinned(pinned: Seq<SuperfileUri>, uri: SuperfileUri) -> bool {
    pinned.contains(uri)
}

/// The candidates that are not in use.
pub open spec fn unpinned(
    candidates: Seq<EvictionCandidate>,
    pinned: Seq<SuperfileUri>,
) -> Seq<EvictionCandidate>
    decreases candidates.len(),
{
    if candidates.len() == 0 {
        Seq::empty()
    } else {
        let rest = unpinned(candidates.drop_last(), pinned);
        if is_pinned(pinned, candidates.last().uri) {
            rest
        } else {
            rest.push(candidates.last())
        }
    }
}

/// The place of the candidate whose last use is longest ago; the first of
/// several.
pub open spec fn oldest(s: Seq<EvictionCandidate>) -> int
    decreases s.len(),
{
    if s.len() <= 1 {
        0
    } else {
        let k = oldest(s.drop_last());
        if s.last().last_access_us < s[k].last_access_us {
            s.len() - 1
        } else {
            k
        }
    }
}

/// The candidates that leave: the oldest, and so on, until `needed` bytes are
/// free or none is left.
pub open spec fn victims_of(s: Seq<EvictionCandidate>, needed: int) -> Seq<EvictionCandidate>
    decreases s.len(),
{
    if s.len() == 0 || needed <= 0 {
        Seq::empty()
    } else {
        let k = oldest(s);
        proof {
            lemma_oldest_within(s);
        }
        seq![s[k]] + victims_of(s.remove(k), needed - s[k].size_bytes)
    }
}

/// The oldest is one of the candidates.
pub proof fn lemma_oldest_within(s: Seq<EvictionCandidate>)
    requires
        s.len() > 0,
    ensures
        0 <= oldest(s) < s.len(),
    decreases s.len(),
{
    if s.len() > 1 {
        lemma_oldest_within(s.drop_last());
    }
}

/// No other candidate was used longer ago.
pub proof fn oldest_is_least_recent(s: Seq<EvictionCandidate>, i: int)
    requires
        0 <= i < s.len(),
    ensures
        0 <= oldest(s) < s.len(),
        s[oldest(s)].last_access_us <= s[i].last_access_us,
    decreases s.len(),
{
    lemma_oldest_within(s);
    if s.len() > 1 {
        let rest = s.drop_last();
        if i < rest.len() {
            oldest_is_least_recent(rest, i);
        } else {
            lemma_oldest_within(rest);
        }
    }
}

fn contains_uri(pinned: &[SuperfileUri], uri: SuperfileUri) -> (r: bool)
    ensures
        r == is_pinned(pinned@, uri),
{
    let mut i: usize = 0;
    while i < pinned.len()
        invariant
            i <= pinned@.len(),
            forall|k: int| 0 <= k < i ==> #[trigger] pinned@[k] != uri,
        decreases pinned@.len() - i,
    {
        if pinned[i] == uri {
            assert(pinned@[i as int] == uri);
            return true;
        }
        i = i + 1;
    }
    false
}

fn oldest_of(s: &Vec<EvictionCandidate>) -> (r: usize)
    requires
        s@.len() > 0,
    ensures
        r < s@.len(),
        r == oldest(s@),
{
    let mut k: usize = 0;
    let mut i: usize = 1;
    assert(s@.take(1).len() == 1);
    while i < s.len()
        invariant
            1 <= i <= s@.len(),
            k < i,
            k == oldest(s@.take(i as int)),
        decreases s@.len() - i,
    {
        proof {
            assert(s@.take(i as int + 1).drop_last() =~= s@.take(i as int));
            assert(s@.take(i as int + 1).last() == s@[i as int]);
            assert(s@.take(i as int + 1)[k as int] == s@[k as int]);
        }
        if s[i].last_access_us < s[k].last_access_us {
            k = i;
        }
        i = i + 1;
    }
    assert(s@.take(i as int) =~= s@);
    k
}

/// The uris of candidates.
pub open spec fn uris_of(s: Seq<EvictionCandidate>) -> Seq<SuperfileUri> {
    Seq::new(s.len(), |i: int| s[i].uri)
}

/// Eviction by the last use.
#[derive(Clone, Copy, PartialEq, Eq, Structural, Debug)]
pub struct LruPolicy;

impl LruPolicy {
    /// The superfiles that leave so that `needed` bytes are free, as far as
    /// those that are not in use go: the one whose last use is longest ago
    /// first.
    pub fn select_for_eviction(
        &self,
        candidates: &[EvictionCandidate],
        pinned: &[SuperfileUri],
        needed: u64,
    ) -> (r: Vec<SuperfileUri>)
        ensures
            r@ == uris_of(victims_of(unpinned(candidates@, pinned@), needed as int)),
    {
        let mut left: Vec<EvictionCandidate> = Vec::new();
        let mut i: usize = 0;
        assert(candidates@.take(0) =~= Seq::empty());
        while i < candidates.len()
            invariant
                i <= candidates@.len(),
                left@ == unpinned(candidates@.take(i as int), pinned@),
            decreases candidates@.len() - i,
        {
            proof {
                assert(candidates@.take(i as int + 1).drop_last() =~= candidates@.take(i as int));
                assert(candidates@.take(i as int + 1).last() == candidates@[i as int]);
            }
            if !contains_uri(pinned, candidates[i].uri) {
                left.push(candidates[i]);
            }
            i = i + 1;
        }
        assert(candidates@.take(i as int) =~= candidates@);
        let ghost all = unpinned(candidates@, pinned@);
        let mut out: Vec<SuperfileUri> = Vec::new();
        let mut missing: u64 = needed;
        assert(uris_of(victims_of(all, needed as int)) =~= out@ + uris_of(
            victims_of(left@, missing as int),
        ));
        while left.len() > 0 && missing > 0
            invariant
                uris_of(victims_of(all, needed as int)) == out@ + uris_of(
                    victims_of(left@, missing as int),
                ),
            decreases left@.len(),
        {
            let k: usize = oldest_of(&left);
            let ghost before = left@;
            let ghost had = out@;
            let ghost wanted = missing as int;
            let c = left.remove(k);
            out.push(c.uri);
            missing = if c.size_bytes < missing {
                missing - c.size_bytes
            } else {
                0
            };
            proof {
                let rest = before.remove(k as int);
                if wanted - c.size_bytes <= 0 {
                    assert(victims_of(rest, wanted - c.size_bytes) =~= victims_of(rest, 0));
                }
                assert(had + uris_of(victims_of(before, wanted)) =~= out@ + uris_of(
                    victims_of(left@, missing as int),
                ));
            }
        }
        assert(out@ + uris_of(victims_of(left@, missing as int)) =~= out@);
        out
    }
}

// ---------------------------------------------------------------- laws

/// The bytes of candidates.
pub open spec fn candidate_bytes(s: Seq<EvictionCandidate>) -> nat
    decreases s.len(),
{
    if s.len() == 0 {
        0
    } else {
        s[0].size_bytes as nat + candidate_bytes(s.skip(1))
    }
}

proof fn lemma_victims_from(s: Seq<EvictionCandidate>, needed: int, i: int)
    requires
        0 <= i < victims_of(s, needed).len(),
    ensures
        s.contains(victims_of(s, needed)[i]),
    decreases s.len(),
{
    if s.len() > 0 && needed > 0 {
        let k = oldest(s);
        lemma_oldest_within(s);
        let rest = s.remove(k);
        let more = victims_of(rest, needed - s[k].size_bytes);
        if i == 0 {
            assert(s[k] == victims_of(s, needed)[0]);
        } else {
            lemma_victims_from(rest, needed - s[k].size_bytes, i - 1);
            let j = choose|j: int| 0 <= j < rest.len() && rest[j] == more[i - 1];
            if j < k {
                assert(s[j] == rest[j]);
            } else {
                assert(s[j + 1] == rest[j]);
            }
        }
    }
}

proof fn lemma_unpinned_are_free(
    candidates: Seq<EvictionCandidate>,
    pinned: Seq<SuperfileUri>,
    i: int,
)
    requires
        0 <= i < unpinned(candidates, pinned).len(),
    ensures
        !is_pinned(pinned, unpinned(candidates, pinned)[i].uri),
    decreases candidates.len(),
{
    if candidates.len() > 0 {
        let rest = unpinned(candidates.drop_last(), pinned);
        if i < rest.len() {
            lemma_unpinned_are_free(candidates.drop_last(), pinned, i);
        }
    }
}

/// A superfile in use is never evicted.
pub proof fn pinned_superfiles_stay(
    candidates: Seq<EvictionCandidate>,
    pinned: Seq<SuperfileUri>,
    needed: int,
    i: int,
)
    requires
        0 <= i < victims_of(unpinned(candidates, pinned), needed).len(),
    ensures
        !is_pinned(pinned, victims_of(unpinned(candidates, pinned), needed)[i].uri),
{
    let free = unpinned(candidates, pinned);
    lemma_victims_from(free, needed, i);
    let j = choose|j: int| 0 <= j < free.len() && free[j] == victims_of(free, needed)[i];
    lemma_unpinned_are_free(candidates, pinned, j);
}

/// The victims free the bytes that are needed, or are all that can leave.
pub proof fn victims_make_room(s: Seq<EvictionCandidate>, needed: int)
    ensures
        candidate_bytes(victims_of(s, needed)) >= needed || victims_of(s, needed).len() == s.len(),
    decreases s.len(),
{
    if s.len() > 0 && needed > 0 {
        let k = oldest(s);
        lemma_oldest_within(s);
        let rest = s.remove(k);
        let more = victims_of(rest, needed - s[k].size_bytes);
        victims_make_room(rest, needed - s[k].size_bytes);
        let all = victims_of(s, needed);
        assert(all.skip(1) =~= more);
        assert(all[0] == s[k]);
    }
}

/// The candidates that can leave are those that are not in use, in their order.
pub proof fn only_pinned_candidates_are_passed_over(
    candidates: Seq<EvictionCandidate>,
    pinned: Seq<SuperfileUri>,
)
    ensures
        unpinned(candidates, pinned) == candidates.filter(
            |c: EvictionCandidate| !pinned.contains(c.uri),
        ),
    decreases candidates.len(),
{
    reveal(Seq::filter);
    if candidates.len() > 0 {
        only_pinned_candidates_are_passed_over(candidates.drop_last(), pinned);
    }
}

/// Of candidates that were last used at the same moment the first leaves first.
pub proof fn ties_leave_in_order(s: Seq<EvictionCandidate>, i: int)
    requires
        0 <= i < oldest(s),
        s.len() > 0,
    ensures
        s[i].last_access_us > s[oldest(s)].last_access_us,
    decreases s.len(),
{
    lemma_oldest_within(s);
    if s.len() > 1 {
        let rest = s.drop_last();
        if i < oldest(rest) {
            ties_leave_in_order(rest, i);
        }
        oldest_is_least_recent(rest, i);
    }
}

/// No more leave than it takes: without the last victim the bytes would not be
/// free. The one that leaves first is the one that was used longest ago.
pub proof fn no_more_leave_than_needed(s: Seq<EvictionCandidate>, needed: int)
    ensures
        needed <= 0 || s.len() == 0 <==> victims_of(s, needed).len() == 0,
        victims_of(s, needed).len() > 0 ==> candidate_bytes(victims_of(s, needed).drop_last())
            < needed,
        victims_of(s, needed).len() > 0 ==> forall|i: int|
            0 <= i < s.len() ==> victims_of(s, needed)[0].last_access_us <= (
            #[trigger] s[i]).last_access_us,
    decreases s.len(),
{
    if s.len() > 0 && needed > 0 {
        let k = oldest(s);
        lemma_oldest_within(s);
        let rest = s.remove(k);
        let more = victims_of(rest, needed - s[k].size_bytes);
        let all = victims_of(s, needed);
        assert(all[0] == s[k]);
        no_more_leave_than_needed(rest, needed - s[k].size_bytes);
        assert forall|i: int| 0 <= i < s.len() implies all[0].last_access_us <= (
        #[trigger] s[i]).last_access_us by {
            oldest_is_least_recent(s, i);
        }
        let front = all.drop_last();
        if more.len() > 0 {
            assert(front[0] == s[k]);
            assert(front.skip(1) =~= more.drop_last());
        } else {
            assert(front =~= Seq::empty());
        }
    }
}

} // verus!
