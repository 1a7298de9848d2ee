//! Room in the disk cache.

use vstd::prelude::*;

use crate::manifest::entry::SuperfileUri;
use crate::reader_cache::disk::{
    balanced, bumped, evicted_entries, evicted_uris, slack, DiskCacheError, DiskCacheStore,
    DiskCacheView, ReserveStep,
};
use crate::reader_cache::policy::{
    candidate_bytes, distinct, is_candidate, is_pinned, lemma_oldest_within, oldest,
    oldest_is_least_recent, stand_in, unpinned, uris_of, victims_make_room, victims_of,
    EvictionCandidate, LruPolicy,
};
use crate::reader_cache::table::{lemma_bytes_without, slots_bytes};

verus! {

/// That all superfiles are in use.
pub open spec fn all_pinned(m: Map<u128, (u64, u64, bool)>, pinned: Seq<SuperfileUri>) -> bool {
    forall|k: u128| #[trigger] m.dom().contains(k) ==> is_pinned(pinned, SuperfileUri(k))
}

/// That superfiles come by their last use, the one longest ago first.
pub open spec fn used_in_order(before: DiskCacheView, gone: Seq<SuperfileUri>) -> bool {
    forall|i: int, j: int|
        0 <= i <= j < gone.len() ==> before.entries[(#[trigger] gone[i]).0].1
            <= before.entries[(#[trigger] gone[j]).0].1
}

/// That superfiles left the cache for want of room: none that is in use, none
/// that was used after one that stayed and is not in use, and their bytes with
/// them. They come by their last use.
pub open spec fn left_oldest_first(
    before: DiskCacheView,
    after: DiskCacheView,
    gone: Seq<SuperfileUri>,
    pinned: Seq<SuperfileUri>,
) -> bool {
    &&& gone.no_duplicates()
    &&& forall|k: u128|
        #![trigger gone.contains(SuperfileUri(k))]
        #![trigger after.entries.dom().contains(k)]
        gone.contains(SuperfileUri(k)) <==> before.entries.dom().contains(k)
            && !after.entries.dom().contains(k)
    &&& forall|k: u128| #[trigger]
        after.entries.dom().contains(k) ==> before.entries.dom().contains(k)
            && after.entries[k] == before.entries[k]
    &&& forall|k: u128| #[trigger]
        before.entries.dom().contains(k) && is_pinned(pinned, SuperfileUri(k))
            ==> after.entries.dom().contains(k)
    &&& forall|e: u128, k: u128|
        gone.contains(SuperfileUri(e)) && #[trigger] after.entries.dom().contains(k)
            && !is_pinned(pinned, SuperfileUri(k)) ==> (#[trigger] before.entries[e]).1
            <= before.entries[k].1
    &&& used_in_order(before, gone)
    &&& after.current == before.current - freed(before, after)
    &&& after == (DiskCacheView {
        entries: after.entries,
        current: after.current,
        n_evictions: bumped(before.n_evictions, gone.len()),
        ..before
    })
}

/// The bytes of the superfiles that left.
pub open spec fn freed(before: DiskCacheView, after: DiskCacheView) -> int {
    slots_bytes(before.entries, false) - slots_bytes(after.entries, false)
}

// ---------------------------------------------------------------- lemmas

proof fn lemma_unpinned(
    s: Seq<EvictionCandidate>,
    pinned: Seq<SuperfileUri>,
    m: Map<u128, (u64, u64, bool)>,
)
    requires
        distinct(s),
        stand_in(s, m),
    ensures
        distinct(unpinned(s, pinned)),
        stand_in(unpinned(s, pinned), m),
        forall|i: int|
            0 <= i < unpinned(s, pinned).len() ==> !is_pinned(
                pinned,
                (#[trigger] unpinned(s, pinned)[i]).uri,
            ) && is_candidate(s, unpinned(s, pinned)[i].uri.0),
        forall|k: u128| #[trigger]
            is_candidate(s, k) && !is_pinned(pinned, SuperfileUri(k)) ==> is_candidate(
                unpinned(s, pinned),
                k,
            ),
    decreases s.len(),
{
    if s.len() > 0 {
        let front = s.drop_last();
        let rest = unpinned(front, pinned);
        let all = unpinned(s, pinned);
        assert forall|i: int, j: int| 0 <= i < j < front.len() implies (#[trigger] front[i]).uri
            != (#[trigger] front[j]).uri by {
            assert(s[i].uri != s[j].uri);
        }
        assert forall|i: int| 0 <= i < front.len() implies m.dom().contains(
            (#[trigger] front[i]).uri.0,
        ) && m[front[i].uri.0].0 == front[i].size_bytes && m[front[i].uri.0].1
            == front[i].last_access_us by {
            assert(m.dom().contains(s[i].uri.0));
        }
        lemma_unpinned(front, pinned, m);
        let last = s[s.len() - 1];
        assert forall|i: int| 0 <= i < rest.len() implies (#[trigger] rest[i]).uri != last.uri by {
            assert(is_candidate(front, rest[i].uri.0));
            let j = choose|j: int| 0 <= j < front.len() && (#[trigger] front[j]).uri.0
                == rest[i].uri.0;
            assert(s[j].uri != last.uri);
        }
        assert forall|i: int| 0 <= i < all.len() implies !is_pinned(pinned, (#[trigger] all[i]).uri)
            && is_candidate(s, all[i].uri.0) by {
            if i < rest.len() {
                assert(all[i] == rest[i]);
                let j = choose|j: int| 0 <= j < front.len() && (#[trigger] front[j]).uri.0
                    == rest[i].uri.0;
                assert(s[j].uri.0 == rest[i].uri.0);
            } else {
                assert(all[i] == last);
            }
        }
        assert forall|k: u128| #[trigger]
            is_candidate(s, k) && !is_pinned(pinned, SuperfileUri(k)) implies is_candidate(
            all,
            k,
        ) by {
            let j = choose|j: int| 0 <= j < s.len() && (#[trigger] s[j]).uri.0 == k;
            if j < front.len() {
                assert(front[j].uri.0 == k);
                assert(is_candidate(front, k));
                let i = choose|i: int| 0 <= i < rest.len() && (#[trigger] rest[i]).uri.0 == k;
                assert(all[i] == rest[i]);
            } else {
                assert(s[j] == last && last.uri == SuperfileUri(k));
                assert(all[rest.len() as int] == last);
            }
        }
    }
}

proof fn lemma_victims(
    s: Seq<EvictionCandidate>,
    needed: int,
    m: Map<u128, (u64, u64, bool)>,
)
    requires
        distinct(s),
        stand_in(s, m),
    ensures
        ({
            let v = victims_of(s, needed);
            &&& distinct(v)
            &&& stand_in(v, m)
            &&& forall|i: int| 0 <= i < v.len() ==> is_candidate(s, (#[trigger] v[i]).uri.0)
            &&& forall|i: int, k: u128|
                0 <= i < v.len() && #[trigger] is_candidate(s, k) && !is_candidate(v, k)
                    ==> (#[trigger] v[i]).last_access_us <= m[k].1
            &&& forall|i: int, j: int|
                0 <= i <= j < v.len() ==> (#[trigger] v[i]).last_access_us <= (
                #[trigger] v[j]).last_access_us
            &&& v.len() == 0 <==> s.len() == 0 || needed <= 0
            &&& v.len() <= s.len()
            &&& v.len() == s.len() ==> forall|k: u128| #[trigger]
                is_candidate(s, k) ==> is_candidate(v, k)
            &&& v.len() > 0 ==> candidate_bytes(v) - v.last().size_bytes < needed
        }),
    decreases s.len(),
{
    let v = victims_of(s, needed);
    if s.len() > 0 && needed > 0 {
        let k0 = oldest(s);
        lemma_oldest_within(s);
        let first = s[k0];
        let rest = s.remove(k0);
        let more = victims_of(rest, needed - first.size_bytes);
        assert(v == seq![first] + more);
        assert forall|i: int, j: int| 0 <= i < j < rest.len() implies (#[trigger] rest[i]).uri != (
        #[trigger] rest[j]).uri by {
            let a = if i < k0 {
                i
            } else {
                i + 1
            };
            let b = if j < k0 {
                j
            } else {
                j + 1
            };
            assert(rest[i] == s[a] && rest[j] == s[b]);
            assert(s[a].uri != s[b].uri);
        }
        assert forall|i: int| 0 <= i < rest.len() implies m.dom().contains(
            (#[trigger] rest[i]).uri.0,
        ) && m[rest[i].uri.0].0 == rest[i].size_bytes && m[rest[i].uri.0].1
            == rest[i].last_access_us && rest[i].uri != first.uri && is_candidate(
            s,
            rest[i].uri.0,
        ) by {
            let a = if i < k0 {
                i
            } else {
                i + 1
            };
            assert(rest[i] == s[a]);
            if a < k0 {
                assert(s[a].uri != s[k0].uri);
            } else {
                assert(s[k0].uri != s[a].uri);
            }
        }
        lemma_victims(rest, needed - first.size_bytes, m);
        assert forall|k: u128| #[trigger] is_candidate(s, k) implies k == first.uri.0
            || is_candidate(rest, k) by {
            let j = choose|j: int| 0 <= j < s.len() && (#[trigger] s[j]).uri.0 == k;
            if j < k0 {
                assert(rest[j] == s[j]);
            } else if j > k0 {
                assert(rest[j - 1] == s[j]);
            }
        }
        assert forall|i: int| 0 <= i < more.len() implies (#[trigger] more[i]).uri != first.uri by {
            let j = choose|j: int| 0 <= j < rest.len() && (#[trigger] rest[j]).uri.0
                == more[i].uri.0;
            assert(rest[j].uri != first.uri);
        }
        assert forall|i: int, j: int| 0 <= i < j < v.len() implies (#[trigger] v[i]).uri != (
        #[trigger] v[j]).uri by {
            assert(v[j] == more[j - 1]);
            if i > 0 {
                assert(v[i] == more[i - 1]);
            }
        }
        assert forall|i: int| 0 <= i < v.len() implies is_candidate(s, (#[trigger] v[i]).uri.0)
            && m.dom().contains(v[i].uri.0) && m[v[i].uri.0].0 == v[i].size_bytes
            && m[v[i].uri.0].1 == v[i].last_access_us by {
            if i == 0 {
                assert(s[k0] == v[0]);
            } else {
                assert(v[i] == more[i - 1]);
                let j = choose|j: int| 0 <= j < rest.len() && (#[trigger] rest[j]).uri.0
                    == more[i - 1].uri.0;
                assert(is_candidate(s, rest[j].uri.0));
            }
        }
        assert forall|k: u128| is_candidate(more, k) implies #[trigger] is_candidate(v, k) by {
            let j = choose|j: int| 0 <= j < more.len() && (#[trigger] more[j]).uri.0 == k;
            assert(v[j + 1] == more[j]);
        }
        assert(v[0] == first);
        assert(is_candidate(v, first.uri.0));
        assert forall|i: int, k: u128|
            0 <= i < v.len() && #[trigger] is_candidate(s, k) && !is_candidate(v, k) implies (
        #[trigger] v[i]).last_access_us <= m[k].1 by {
            assert(is_candidate(rest, k));
            if i == 0 {
                let j = choose|j: int| 0 <= j < s.len() && (#[trigger] s[j]).uri.0 == k;
                oldest_is_least_recent(s, j);
            } else {
                assert(v[i] == more[i - 1]);
                assert(!is_candidate(more, k));
            }
        }
        assert forall|i: int, j: int| 0 <= i <= j < v.len() implies (#[trigger] v[i]).last_access_us
            <= (#[trigger] v[j]).last_access_us by {
            if j > 0 {
                assert(v[j] == more[j - 1]);
                if i > 0 {
                    assert(v[i] == more[i - 1]);
                } else {
                    assert(is_candidate(s, v[j].uri.0));
                    let k = choose|k: int| 0 <= k < s.len() && (#[trigger] s[k]).uri.0
                        == v[j].uri.0;
                    oldest_is_least_recent(s, k);
                    assert(m[v[j].uri.0].1 == v[j].last_access_us);
                    assert(m[s[k].uri.0].1 == s[k].last_access_us);
                }
            }
        }
        if v.len() == s.len() {
            assert forall|k: u128| #[trigger] is_candidate(s, k) implies is_candidate(v, k) by {
                if k != first.uri.0 {
                    assert(is_candidate(rest, k));
                    assert(is_candidate(more, k));
                }
            }
        }
        assert(v.skip(1) =~= more);
        assert(candidate_bytes(v) == first.size_bytes + candidate_bytes(more));
        if more.len() > 0 {
            assert(v.last() == more.last());
        } else {
            assert(v.last() == first);
        }
    }
}

/// What the map is without superfiles that stand in it.
proof fn lemma_evicted(v: Seq<EvictionCandidate>, m: Map<u128, (u64, u64, bool)>)
    requires
        distinct(v),
        stand_in(v, m),
        m.dom().finite(),
    ensures
        evicted_uris(m, uris_of(v)) == uris_of(v),
        uris_of(v).no_duplicates(),
        evicted_entries(m, uris_of(v)).dom().finite(),
        forall|k: u128| #[trigger]
            evicted_entries(m, uris_of(v)).dom().contains(k) <==> m.dom().contains(k)
                && !is_candidate(v, k),
        forall|k: u128| #[trigger]
            evicted_entries(m, uris_of(v)).dom().contains(k) ==> evicted_entries(
                m,
                uris_of(v),
            )[k] == m[k],
        slots_bytes(evicted_entries(m, uris_of(v)), false) + candidate_bytes(v) == slots_bytes(
            m,
            false,
        ),
    decreases v.len(),
{
    let u = uris_of(v);
    if v.len() > 0 {
        let front = v.drop_last();
        let last = v[v.len() - 1];
        assert(u.drop_last() =~= uris_of(front));
        assert(u.last() == last.uri);
        assert forall|i: int, j: int| 0 <= i < j < front.len() implies (#[trigger] front[i]).uri
            != (#[trigger] front[j]).uri by {
            assert(v[i].uri != v[j].uri);
        }
        assert forall|i: int| 0 <= i < front.len() implies m.dom().contains(
            (#[trigger] front[i]).uri.0,
        ) && m[front[i].uri.0].0 == front[i].size_bytes && m[front[i].uri.0].1
            == front[i].last_access_us by {
            assert(m.dom().contains(v[i].uri.0));
        }
        lemma_evicted(front, m);
        let before = evicted_entries(m, uris_of(front));
        assert(!is_candidate(front, last.uri.0)) by {
            if is_candidate(front, last.uri.0) {
                let j = choose|j: int| 0 <= j < front.len() && (#[trigger] front[j]).uri.0
                    == last.uri.0;
                assert(v[j].uri != last.uri);
            }
        }
        assert(m.dom().contains(last.uri.0));
        assert(before.dom().contains(last.uri.0));
        lemma_bytes_without(before, last.uri.0, false);
        lemma_candidate_bytes_last(v);
        assert(evicted_uris(m, u) =~= u);
        assert forall|k: u128| is_candidate(v, k) == (is_candidate(front, k) || k
            == last.uri.0) by {
            if is_candidate(v, k) {
                let j = choose|j: int| 0 <= j < v.len() && (#[trigger] v[j]).uri.0 == k;
                if j < front.len() {
                    assert(front[j].uri.0 == k);
                }
            }
            if is_candidate(front, k) {
                let j = choose|j: int| 0 <= j < front.len() && (#[trigger] front[j]).uri.0 == k;
                assert(v[j].uri.0 == k);
            }
            if k == last.uri.0 {
                assert(v[v.len() - 1].uri.0 == k);
            }
        }
    }
    assert forall|i: int, j: int| 0 <= i < u.len() && 0 <= j < u.len() && i != j implies u[i]
        != u[j] by {
        if i < j {
            assert(v[i].uri != v[j].uri);
        } else {
            assert(v[j].uri != v[i].uri);
        }
    }
}

proof fn lemma_candidate_bytes_last(v: Seq<EvictionCandidate>)
    requires
        v.len() > 0,
    ensures
        candidate_bytes(v) == candidate_bytes(v.drop_last()) + v.last().size_bytes,
    decreases v.len(),
{
    if v.len() == 1 {
        assert(v.drop_last() =~= Seq::empty());
        assert(v.skip(1) =~= Seq::empty());
    } else {
        lemma_candidate_bytes_last(v.skip(1));
        assert(v.skip(1).drop_last() =~= v.drop_last().skip(1));
        assert(v.skip(1).last() == v.last());
    }
}

// ---------------------------------------------------------------- room

/// What a request for room came to, and the superfiles that had to leave: their
/// files are to be removed.
#[derive(Debug)]
pub struct Room {
    pub outcome: Result<(), DiskCacheError>,
    pub evicted: Vec<SuperfileUri>,
}

impl DiskCacheStore {
    /// Lets superfiles leave until `needed` bytes are free, as far as those
    /// that are not in use go, and no more than that takes. Those that left
    /// come back. Where none can leave there is no room.
    pub fn evict_at_least(&mut self, needed: u64, pinned: &[SuperfileUri]) -> (r: Result<
        Vec<SuperfileUri>,
        DiskCacheError,
    >)
        requires
            balanced(old(self)@),
        ensures
            balanced(final(self)@),
            slack(final(self)@) == slack(old(self)@),
            r is Err <==> needed == 0 || all_pinned(old(self)@.entries, pinned@),
            match r {
                Ok(gone) => {
                    &&& gone@.len() > 0
                    &&& left_oldest_first(old(self)@, final(self)@, gone@, pinned@)
                    &&& freed(old(self)@, final(self)@) >= needed || all_pinned(
                        final(self)@.entries,
                        pinned@,
                    )
                    &&& freed(old(self)@, final(self)@) - old(self)@.entries[gone@.last().0].0
                        < needed
                },
                Err(e) => e is BudgetExceeded && final(self)@ == old(self)@,
            },
    {
        let ghost before = self@;
        let ghost m = self@.entries;
        let candidates = self.candidates();
        let victims = LruPolicy.select_for_eviction(candidates.as_slice(), pinned, needed);
        let ghost free = unpinned(candidates@, pinned@);
        let ghost v = victims_of(free, needed as int);
        proof {
            lemma_unpinned(candidates@, pinned@, m);
            lemma_victims(free, needed as int, m);
            lemma_evicted(v, m);
            victims_make_room(free, needed as int);
            assert(free.len() == 0 <==> all_pinned(m, pinned@)) by {
                if free.len() == 0 {
                    assert forall|k: u128| #[trigger] m.dom().contains(k) implies is_pinned(
                        pinned@,
                        SuperfileUri(k),
                    ) by {
                        assert(is_candidate(candidates@, k));
                        if !is_pinned(pinned@, SuperfileUri(k)) {
                            assert(is_candidate(free, k));
                        }
                    }
                } else {
                    assert(!is_pinned(pinned@, free[0].uri));
                    assert(m.dom().contains(free[0].uri.0));
                    assert(SuperfileUri(free[0].uri.0) == free[0].uri);
                }
            }
        }
        let r = self.evict(victims.as_slice());
        proof {
            if v.len() > 0 {
                let gone = uris_of(v);
                let after = self@;
                assert forall|k: u128|
                    #![trigger gone.contains(SuperfileUri(k))]
                    #![trigger after.entries.dom().contains(k)]
                    gone.contains(SuperfileUri(k)) <==> m.dom().contains(k)
                        && !after.entries.dom().contains(k) by {
                    if is_candidate(v, k) {
                        let i = choose|i: int| 0 <= i < v.len() && (#[trigger] v[i]).uri.0 == k;
                        assert(gone[i] == SuperfileUri(k));
                        assert(m.dom().contains(v[i].uri.0));
                    }
                    if gone.contains(SuperfileUri(k)) {
                        let i = choose|i: int| 0 <= i < gone.len() && gone[i] == SuperfileUri(k);
                        assert(v[i].uri.0 == k);
                        assert(is_candidate(v, k));
                    }
                }
                assert forall|k: u128| #[trigger]
                    m.dom().contains(k) && is_pinned(
                        pinned@,
                        SuperfileUri(k),
                    ) implies after.entries.dom().contains(k) by {
                    if is_candidate(v, k) {
                        let i = choose|i: int| 0 <= i < v.len() && (#[trigger] v[i]).uri.0 == k;
                        assert(is_candidate(free, v[i].uri.0));
                        let j = choose|j: int| 0 <= j < free.len() && (#[trigger] free[j]).uri.0
                            == k;
                        assert(!is_pinned(pinned@, free[j].uri));
                        assert(free[j].uri == SuperfileUri(k));
                    }
                }
                assert forall|e: u128, k: u128|
                    gone.contains(SuperfileUri(e)) && #[trigger] after.entries.dom().contains(k)
                        && !is_pinned(pinned@, SuperfileUri(k)) implies (#[trigger] m[e]).1
                    <= m[k].1 by {
                    let i = choose|i: int| 0 <= i < gone.len() && gone[i] == SuperfileUri(e);
                    assert(v[i].uri.0 == e);
                    assert(is_candidate(candidates@, k));
                    assert(is_candidate(free, k));
                }
                if v.len() == free.len() {
                    assert forall|k: u128| #[trigger]
                        after.entries.dom().contains(k) implies is_pinned(
                        pinned@,
                        SuperfileUri(k),
                    ) by {
                        assert(is_candidate(candidates@, k));
                        if !is_pinned(pinned@, SuperfileUri(k)) {
                            assert(is_candidate(free, k));
                            assert(is_candidate(v, k));
                        }
                    }
                }
                assert(gone.last() == v.last().uri);
                assert(v[v.len() - 1] == v.last());
                assert forall|i: int, j: int| 0 <= i <= j < gone.len() implies before.entries[(
                #[trigger] gone[i]).0].1 <= before.entries[(#[trigger] gone[j]).0].1 by {
                    assert(gone[i] == v[i].uri && gone[j] == v[j].uri);
                }
            }
        }
        r
    }

    /// Reserves bytes for a superfile that is on its way. As long as there is
    /// no room for them, superfiles that are not in use leave, the one whose
    /// last use is longest ago first, and no more than that takes. It fails just where the room is not there
    /// though all that could leave have left.
    pub fn reserve(&mut self, bytes: u64, pinned: &[SuperfileUri]) -> (r: Room)
        requires
            balanced(old(self)@),
        ensures
            balanced(final(self)@),
            slack(final(self)@) == slack(old(self)@),
            old(self)@.current + bytes <= old(self)@.budget ==> r.outcome is Ok && r.evicted@.len()
                == 0,
            ({
                let added = if r.outcome is Ok {
                    bytes as int
                } else {
                    0
                };
                let after = DiskCacheView {
                    current: (final(self)@.current - added) as u64,
                    reserved: (final(self)@.reserved - added) as u64,
                    ..final(self)@
                };
                &&& added <= final(self)@.reserved
                &&& left_oldest_first(old(self)@, after, r.evicted@, pinned@)
                &&& r.evicted@.len() > 0 ==> freed(old(self)@, after)
                    - old(self)@.entries[r.evicted@.last().0].0 < old(self)@.current + bytes
                    - old(self)@.budget
            }),
            r.outcome matches Err(e) ==> e is BudgetExceeded && all_pinned(
                final(self)@.entries,
                pinned@,
            ) && final(self)@.current + bytes > final(self)@.budget,
    {
        let ghost before = self@;
        let mut evicted: Vec<SuperfileUri> = Vec::new();
        loop
            invariant
                before == old(self)@,
                balanced(self@),
                slack(self@) == slack(before),
                left_oldest_first(before, self@, evicted@, pinned@),
                before.current + bytes <= before.budget ==> evicted@.len() == 0,
                evicted@.len() == 0 ==> self@ == before,
                evicted@.len() > 0 ==> freed(before, self@)
                    - before.entries[evicted@.last().0].0 < before.current + bytes
                    - before.budget,
                before.entries.dom().finite(),
            decreases self@.entries.dom().len(),
        {
            match self.try_reserve(bytes) {
                ReserveStep::Reserved => {
                    return Room { outcome: Ok(()), evicted };
                },
                ReserveStep::Evict { needed } => {
                    let ghost here = self@;
                    match self.evict_at_least(needed, pinned) {
                        Ok(mut gone) => {
                            let ghost had = evicted@;
                            let ghost more = gone@;
                            evicted.append(&mut gone);
                            proof {
                                lemma_left_twice(before, here, self@, had, more, pinned@);
                                assert(more.contains(more[0]));
                                let k = more[0].0;
                                assert(more[0] == SuperfileUri(k));
                                assert(here.entries.dom().contains(k));
                                assert(!self@.entries.dom().contains(k));
                                assert(evicted@.last() == more.last());
                                assert(more.contains(more.last()));
                                assert(more.last() == SuperfileUri(more.last().0));
                                assert(here.entries.dom().contains(more.last().0));
                                assert(self@.entries.dom().subset_of(here.entries.dom().remove(k)));
                                vstd::set_lib::lemma_len_subset(
                                    self@.entries.dom(),
                                    here.entries.dom().remove(k),
                                );
                            }
                        },
                        Err(e) => {
                            return Room { outcome: Err(e), evicted };
                        },
                    }
                },
            }
        }
    }
}

/// Leaving and then leaving again is leaving.
proof fn lemma_left_twice(
    a: DiskCacheView,
    b: DiskCacheView,
    c: DiskCacheView,
    first: Seq<SuperfileUri>,
    second: Seq<SuperfileUri>,
    pinned: Seq<SuperfileUri>,
)
    requires
        left_oldest_first(a, b, first, pinned),
        left_oldest_first(b, c, second, pinned),
        balanced(b),
        balanced(c),
    ensures
        left_oldest_first(a, c, first + second, pinned),
{
    let all = first + second;
    assert forall|k: u128|
        all.contains(SuperfileUri(k)) <==> (first.contains(SuperfileUri(k)) || second.contains(
            SuperfileUri(k),
        )) by {
        if first.contains(SuperfileUri(k)) {
            let i = choose|i: int| 0 <= i < first.len() && first[i] == SuperfileUri(k);
            assert(all[i] == SuperfileUri(k));
        }
        if second.contains(SuperfileUri(k)) {
            let i = choose|i: int| 0 <= i < second.len() && second[i] == SuperfileUri(k);
            assert(all[first.len() + i] == SuperfileUri(k));
        }
    }
    assert forall|k: u128|
        #![trigger all.contains(SuperfileUri(k))]
        #![trigger c.entries.dom().contains(k)]
        all.contains(SuperfileUri(k)) <==> a.entries.dom().contains(k)
            && !c.entries.dom().contains(k) by {
        assert(first.contains(SuperfileUri(k)) <==> a.entries.dom().contains(k)
            && !b.entries.dom().contains(k));
        assert(second.contains(SuperfileUri(k)) <==> b.entries.dom().contains(k)
            && !c.entries.dom().contains(k));
    }
    assert forall|i: int, j: int| 0 <= i < all.len() && 0 <= j < all.len() && i != j implies all[i]
        != all[j] by {
        let p = all[i];
        let q = all[j];
        assert(p == SuperfileUri(p.0));
        assert(q == SuperfileUri(q.0));
        if i < first.len() && j < first.len() {
            assert(first[i] != first[j]);
        } else if i >= first.len() && j >= first.len() {
            assert(second[i - first.len()] != second[j - first.len()]);
        } else if i < first.len() {
            assert(first.contains(first[i]));
            assert(second.contains(second[j - first.len()]));
            assert(!b.entries.dom().contains(p.0));
            assert(!c.entries.dom().contains(q.0));
            assert(b.entries.dom().contains(q.0));
        } else {
            assert(first.contains(first[j]));
            assert(second.contains(second[i - first.len()]));
            assert(!b.entries.dom().contains(q.0));
            assert(!c.entries.dom().contains(p.0));
            assert(b.entries.dom().contains(p.0));
        }
    }
    assert forall|e: u128, k: u128|
        all.contains(SuperfileUri(e)) && #[trigger] c.entries.dom().contains(k) && !is_pinned(
            pinned,
            SuperfileUri(k),
        ) implies (#[trigger] a.entries[e]).1 <= a.entries[k].1 by {
        assert(b.entries.dom().contains(k));
        if !first.contains(SuperfileUri(e)) {
            assert(second.contains(SuperfileUri(e)));
            assert(!c.entries.dom().contains(e));
            assert(b.entries.dom().contains(e));
            assert(b.entries[e].1 <= b.entries[k].1);
        }
    }
    assert forall|i: int, j: int| 0 <= i <= j < all.len() implies a.entries[(
    #[trigger] all[i]).0].1 <= a.entries[(#[trigger] all[j]).0].1 by {
        if j < first.len() {
            assert(all[i] == first[i] && all[j] == first[j]);
        } else {
            let q = second[j - first.len()];
            assert(all[j] == q && q == SuperfileUri(q.0));
            assert(second.contains(q));
            assert(b.entries.dom().contains(q.0) && !c.entries.dom().contains(q.0));
            if i < first.len() {
                let p = first[i];
                assert(all[i] == p && p == SuperfileUri(p.0));
                assert(first.contains(p));
                assert(!is_pinned(pinned, SuperfileUri(q.0)));
            } else {
                let p = second[i - first.len()];
                assert(all[i] == p && p == SuperfileUri(p.0));
                assert(second.contains(p));
                assert(b.entries.dom().contains(p.0));
            }
        }
    }
    assert(bumped(bumped(a.n_evictions, first.len()), second.len()) == bumped(
        a.n_evictions,
        all.len(),
    ));
}

} // verus!
