//! The books of the disk cache: which superfiles it holds, how many bytes they
//! take, and which of them go when room is needed.

use vstd::prelude::*;

use crate::error::{joined, StorageError};
use crate::manifest::entry::SuperfileUri;
use crate::reader_cache::policy::{candidates_of, is_candidate, EvictionCandidate};
use crate::reader_cache::table::{
    get_slot, lemma_bytes_insert, lemma_bytes_without, lemma_list_bytes, lemma_list_len,
    lemma_mapped_bytes, list_bytes, list_slots, listed, lists, no_slots, put_slot, slots,
    slots_bytes, take_slot,
};

verus! {

// ---------------------------------------------------------------- errors

/// Errors of the disk cache.
#[derive(Debug)]
pub enum DiskCacheError {
    Storage(StorageError),
    Io(String),
    SuperfileOpen(String),
    SuperfileOpenRead(String),
    /// Nothing can be evicted to make room.
    BudgetExceeded,
}

/// The text of an error.
pub open spec fn disk_error_text(e: DiskCacheError) -> Seq<char> {
    match e {
        DiskCacheError::Storage(_) => "storage error during cold fetch"@,
        DiskCacheError::Io(s) => "local filesystem error: "@ + s@,
        DiskCacheError::SuperfileOpen(s) => "superfile reader failed to open mmap'd bytes: "@ + s@,
        DiskCacheError::SuperfileOpenRead(_) => "superfile reader failed to open bytes"@,
        DiskCacheError::BudgetExceeded => "disk cache budget exceeded with no eligible victims"@,
    }
}

impl DiskCacheError {
    /// The error as a line of text.
    pub fn message(&self) -> (r: String)
        ensures
            r@ == disk_error_text(*self),
    {
        match self {
            DiskCacheError::Storage(_) => "storage error during cold fetch".to_string(),
            DiskCacheError::Io(s) => joined("local filesystem error: ", s.as_str()),
            DiskCacheError::SuperfileOpen(s) => {
                joined("superfile reader failed to open mmap'd bytes: ", s.as_str())
            },
            DiskCacheError::SuperfileOpenRead(_) => {
                "superfile reader failed to open bytes".to_string()
            },
            DiskCacheError::BudgetExceeded => {
                "disk cache budget exceeded with no eligible victims".to_string()
            },
        }
    }
}

// ---------------------------------------------------------------- figures

/// Figures about a disk cache at one moment.
#[derive(Clone, Copy, PartialEq, Eq, Structural, Debug)]
pub struct CacheStats {
    pub n_entries: u64,
    pub current_bytes: u64,
    pub budget_bytes: u64,
    pub n_cold_fetches: u64,
    pub n_evictions: u64,
    /// How often pages of a superfile were given back.
    pub n_madvise_calls: u64,
}

impl Default for CacheStats {
    fn default() -> (r: Self)
        ensures
            r == (CacheStats {
                n_entries: 0,
                current_bytes: 0,
                budget_bytes: 0,
                n_cold_fetches: 0,
                n_evictions: 0,
                n_madvise_calls: 0,
            }),
    {
        CacheStats {
            n_entries: 0,
            current_bytes: 0,
            budget_bytes: 0,
            n_cold_fetches: 0,
            n_evictions: 0,
            n_madvise_calls: 0,
        }
    }
}

/// A counter after `n` more. It begins again after the greatest number.
pub open spec fn bumped(a: u64, n: nat) -> u64 {
    ((a + n) % 0x1_0000_0000_0000_0000) as u64
}

fn bump(a: u64, n: u64) -> (r: u64)
    ensures
        r == bumped(a, n as nat),
{
    let sum: u128 = a as u128 + n as u128;
    (sum % 0x1_0000_0000_0000_0000) as u64
}

// ---------------------------------------------------------------- the books

/// The books of a disk cache.
pub struct DiskCacheStore {
    budget: u64,
    table: dashmap::DashMap<u128, (u64, u64, bool)>,
    current: u64,
    reserved: u64,
    n_cold_fetches: u64,
    n_evictions: u64,
    n_madvise_calls: u64,
}

pub struct DiskCacheView {
    pub budget: u64,
    /// For each superfile its bytes, the moment of its last use, and whether
    /// it is mapped.
    pub entries: Map<u128, (u64, u64, bool)>,
    /// Bytes that count against the budget.
    pub current: u64,
    /// Those of them that stand for superfiles that are on their way.
    pub reserved: u64,
    pub n_cold_fetches: u64,
    pub n_evictions: u64,
    pub n_madvise_calls: u64,
}

impl View for DiskCacheStore {
    type V = DiskCacheView;

    closed spec fn view(&self) -> DiskCacheView {
        DiskCacheView {
            budget: self.budget,
            entries: slots(self.table),
            current: self.current,
            reserved: self.reserved,
            n_cold_fetches: self.n_cold_fetches,
            n_evictions: self.n_evictions,
            n_madvise_calls: self.n_madvise_calls,
        }
    }
}

/// That the books balance: what is held and what is reserved counts against the
/// budget, and does not exceed it.
pub open spec fn balanced(v: DiskCacheView) -> bool {
    &&& v.entries.dom().finite()
    &&& slots_bytes(v.entries, false) + v.reserved <= v.current
    &&& v.current <= v.budget
}

/// The bytes that count against the budget and stand for nothing: those of
/// superfiles that another copy replaced.
pub open spec fn slack(v: DiskCacheView) -> int {
    v.current - v.reserved - slots_bytes(v.entries, false)
}

/// What a request for room came to.
#[derive(Clone, Copy, PartialEq, Eq, Structural, Debug)]
pub enum ReserveStep {
    /// The bytes are reserved.
    Reserved,
    /// So many bytes must go first.
    Evict { needed: u64 },
}

/// The map after the keys are gone.
pub open spec fn evicted_entries(
    m: Map<u128, (u64, u64, bool)>,
    victims: Seq<SuperfileUri>,
) -> Map<u128, (u64, u64, bool)>
    decreases victims.len(),
{
    if victims.len() == 0 {
        m
    } else {
        evicted_entries(m, victims.drop_last()).remove(victims.last().0)
    }
}

/// The victims that were there.
pub open spec fn evicted_uris(
    m: Map<u128, (u64, u64, bool)>,
    victims: Seq<SuperfileUri>,
) -> Seq<SuperfileUri>
    decreases victims.len(),
{
    if victims.len() == 0 {
        Seq::empty()
    } else {
        let before = evicted_uris(m, victims.drop_last());
        if evicted_entries(m, victims.drop_last()).dom().contains(victims.last().0) {
            before.push(victims.last())
        } else {
            before
        }
    }
}

impl DiskCacheStore {
    /// An empty cache.
    pub fn new(budget: u64) -> (r: Self)
        ensures
            balanced(r@),
            slack(r@) == 0,
            r@ == (DiskCacheView {
                budget,
                entries: Map::empty(),
                current: 0,
                reserved: 0,
                n_cold_fetches: 0,
                n_evictions: 0,
                n_madvise_calls: 0,
            }),
    {
        DiskCacheStore {
            budget,
            table: no_slots(),
            current: 0,
            reserved: 0,
            n_cold_fetches: 0,
            n_evictions: 0,
            n_madvise_calls: 0,
        }
    }

    /// Whether the superfile is there.
    pub fn contains(&self, uri: SuperfileUri) -> (r: bool)
        ensures
            r == self@.entries.dom().contains(uri.0),
    {
        get_slot(&self.table, uri.0).is_some()
    }

    /// Whether the superfile is there and mapped.
    pub fn is_mmap_promoted(&self, uri: SuperfileUri) -> (r: bool)
        ensures
            r == (self@.entries.dom().contains(uri.0) && self@.entries[uri.0].2),
    {
        match get_slot(&self.table, uri.0) {
            Some(v) => v.2,
            None => false,
        }
    }

    /// Looks for the superfile; where it is there, this counts as a use.
    pub fn touch(&mut self, uri: SuperfileUri, now_us: u64) -> (r: bool)
        requires
            balanced(old(self)@),
        ensures
            balanced(final(self)@),
            slack(final(self)@) == slack(old(self)@),
            r == old(self)@.entries.dom().contains(uri.0),
            !r ==> final(self)@ == old(self)@,
            r ==> final(self)@ == (DiskCacheView {
                entries: old(self)@.entries.insert(
                    uri.0,
                    (old(self)@.entries[uri.0].0, now_us, old(self)@.entries[uri.0].2),
                ),
                ..old(self)@
            }),
    {
        match get_slot(&self.table, uri.0) {
            Some(v) => {
                let ghost m = self@.entries;
                let next: (u64, u64, bool) = (v.0, now_us, v.2);
                put_slot(&mut self.table, uri.0, next);
                proof {
                    lemma_bytes_insert(m, uri.0, next, false);
                    lemma_bytes_without(m, uri.0, false);
                }
                true
            },
            None => false,
        }
    }

    /// Reserves bytes for a superfile that is on its way, or says how much must
    /// go first.
    pub fn try_reserve(&mut self, bytes: u64) -> (r: ReserveStep)
        requires
            balanced(old(self)@),
        ensures
            balanced(final(self)@),
            slack(final(self)@) == slack(old(self)@),
            if old(self)@.current + bytes <= old(self)@.budget {
                r is Reserved && final(self)@ == (DiskCacheView {
                    current: (old(self)@.current + bytes) as u64,
                    reserved: (old(self)@.reserved + bytes) as u64,
                    ..old(self)@
                })
            } else {
                final(self)@ == old(self)@ && r == (ReserveStep::Evict {
                    needed: (old(self)@.current + bytes - old(self)@.budget) as u64,
                })
            },
    {
        let room: u64 = self.budget - self.current;
        if bytes <= room {
            self.current = self.current + bytes;
            self.reserved = self.reserved + bytes;
            ReserveStep::Reserved
        } else {
            ReserveStep::Evict { needed: bytes - room }
        }
    }

    /// Gives reserved bytes back: the superfile did not come.
    pub fn release(&mut self, bytes: u64)
        requires
            balanced(old(self)@),
            bytes <= old(self)@.reserved,
        ensures
            balanced(final(self)@),
            slack(final(self)@) == slack(old(self)@),
            final(self)@ == (DiskCacheView {
                current: (old(self)@.current - bytes) as u64,
                reserved: (old(self)@.reserved - bytes) as u64,
                ..old(self)@
            }),
    {
        self.current = self.current - bytes;
        self.reserved = self.reserved - bytes;
    }

    /// Removes the victims. Those that were there come back, for their files
    /// to be removed; each counts once. Without victims there is no room to be
    /// had.
    pub fn evict(&mut self, victims: &[SuperfileUri]) -> (r: Result<
        Vec<SuperfileUri>,
        DiskCacheError,
    >)
        requires
            balanced(old(self)@),
        ensures
            balanced(final(self)@),
            slack(final(self)@) == slack(old(self)@),
            if victims@.len() == 0 {
                r == Err::<Vec<SuperfileUri>, DiskCacheError>(DiskCacheError::BudgetExceeded)
                    && final(self)@ == old(self)@
            } else {
                let gone = evicted_uris(old(self)@.entries, victims@);
                let after = evicted_entries(old(self)@.entries, victims@);
                &&& r matches Ok(v) && v@ == gone
                &&& final(self)@ == (DiskCacheView {
                    entries: after,
                    current: (old(self)@.current - (slots_bytes(old(self)@.entries, false)
                        - slots_bytes(after, false))) as u64,
                    n_evictions: bumped(old(self)@.n_evictions, gone.len()),
                    ..old(self)@
                })
            },
    {
        if victims.len() == 0 {
            return Err(DiskCacheError::BudgetExceeded);
        }
        let ghost m = self@.entries;
        let ghost before = self@;
        let mut gone: Vec<SuperfileUri> = Vec::new();
        let mut i: usize = 0;
        assert(victims@.take(0) =~= Seq::empty());
        while i < victims.len()
            invariant
                i <= victims@.len(),
                balanced(before),
                m == before.entries,
                gone@ == evicted_uris(m, victims@.take(i as int)),
                self@.entries == evicted_entries(m, victims@.take(i as int)),
                self@.entries.dom().finite(),
                slots_bytes(self@.entries, false) <= slots_bytes(m, false),
                self@ == (DiskCacheView {
                    entries: self@.entries,
                    current: (before.current - (slots_bytes(m, false) - slots_bytes(
                        self@.entries,
                        false,
                    ))) as u64,
                    ..before
                }),
            decreases victims@.len() - i,
        {
            let ghost here = self@.entries;
            let uri = victims[i];
            proof {
                assert(victims@.take(i as int + 1).drop_last() =~= victims@.take(i as int));
                assert(victims@.take(i as int + 1).last() == uri);
            }
            match take_slot(&mut self.table, uri.0) {
                Some(v) => {
                    proof {
                        lemma_bytes_without(here, uri.0, false);
                    }
                    self.current = self.current - v.0;
                    gone.push(uri);
                },
                None => {
                    proof {
                        assert(here.remove(uri.0) =~= here);
                    }
                },
            }
            i = i + 1;
        }
        assert(victims@.take(i as int) =~= victims@);
        let n: usize = gone.len();
        self.n_evictions = bump(self.n_evictions, n as u64);
        Ok(gone)
    }

    /// The superfiles that are there, each with its bytes and its last use.
    pub fn candidates(&self) -> (r: Vec<EvictionCandidate>)
        ensures
            candidates_of(r@, self@.entries),
    {
        let all = list_slots(&self.table);
        let ghost m = self@.entries;
        let mut out: Vec<EvictionCandidate> = Vec::new();
        let mut i: usize = 0;
        while i < all.len()
            invariant
                i <= all@.len(),
                out@.len() == i,
                forall|k: int|
                    0 <= k < i ==> (#[trigger] out@[k]) == (EvictionCandidate {
                        uri: SuperfileUri(all@[k].0),
                        size_bytes: all@[k].1.0,
                        last_access_us: all@[k].1.1,
                    }),
            decreases all@.len() - i,
        {
            let (key, v) = all[i];
            out.push(
                EvictionCandidate {
                    uri: SuperfileUri(key),
                    size_bytes: v.0,
                    last_access_us: v.1,
                },
            );
            i = i + 1;
        }
        proof {
            assert forall|a: int, b: int| 0 <= a < b < out@.len() implies (#[trigger] out@[a]).uri
                != (#[trigger] out@[b]).uri by {
                assert(all@[a].0 != all@[b].0);
            }
            assert forall|k: int| 0 <= k < out@.len() implies m.dom().contains(
                (#[trigger] out@[k]).uri.0,
            ) && m[out@[k].uri.0].0 == out@[k].size_bytes && m[out@[k].uri.0].1
                == out@[k].last_access_us by {
                assert(m.dom().contains(all@[k].0));
            }
            assert forall|k: u128| #[trigger] m.dom().contains(k) implies is_candidate(out@, k) by {
                assert(listed(all@, k));
                let j = choose|j: int| 0 <= j < all@.len() && (#[trigger] all@[j]).0 == k;
                assert(out@[j].uri.0 == k);
            }
        }
        out
    }

    /// A superfile has come in full: it takes the place of its reservation.
    pub fn register(&mut self, uri: SuperfileUri, size: u64, mapped: bool, now_us: u64)
        requires
            balanced(old(self)@),
            size <= old(self)@.reserved,
        ensures
            balanced(final(self)@),
            !old(self)@.entries.dom().contains(uri.0) ==> slack(final(self)@) == slack(
                old(self)@,
            ),
            final(self)@ == (DiskCacheView {
                entries: old(self)@.entries.insert(uri.0, (size, now_us, mapped)),
                reserved: (old(self)@.reserved - size) as u64,
                n_cold_fetches: bumped(old(self)@.n_cold_fetches, 1),
                ..old(self)@
            }),
    {
        let ghost m = self@.entries;
        let slot: (u64, u64, bool) = (size, now_us, mapped);
        put_slot(&mut self.table, uri.0, slot);
        self.reserved = self.reserved - size;
        self.n_cold_fetches = bump(self.n_cold_fetches, 1);
        proof {
            lemma_bytes_insert(m, uri.0, slot, false);
            if m.dom().contains(uri.0) {
                lemma_bytes_without(m, uri.0, false);
            } else {
                assert(m.remove(uri.0) =~= m);
            }
        }
    }

    /// A fetch from the storage has ended. What came is registered; where it
    /// failed the reservation goes back.
    pub fn finish_cold_fetch(
        &mut self,
        uri: SuperfileUri,
        size: u64,
        mapped: bool,
        now_us: u64,
        outcome: Result<(), DiskCacheError>,
    ) -> (r: Result<(), DiskCacheError>)
        requires
            balanced(old(self)@),
            size <= old(self)@.reserved,
        ensures
            balanced(final(self)@),
            match outcome {
                Ok(_) => r is Ok,
                Err(e) => r == Err::<(), DiskCacheError>(e),
            },
            outcome is Err || !old(self)@.entries.dom().contains(uri.0) ==> slack(final(self)@)
                == slack(old(self)@),
            match outcome {
                Ok(_) => final(self)@ == (DiskCacheView {
                    entries: old(self)@.entries.insert(uri.0, (size, now_us, mapped)),
                    reserved: (old(self)@.reserved - size) as u64,
                    n_cold_fetches: bumped(old(self)@.n_cold_fetches, 1),
                    ..old(self)@
                }),
                Err(_) => final(self)@ == (DiskCacheView {
                    current: (old(self)@.current - size) as u64,
                    reserved: (old(self)@.reserved - size) as u64,
                    ..old(self)@
                }),
            },
    {
        match outcome {
            Ok(()) => {
                self.register(uri, size, mapped, now_us);
                Ok(())
            },
            Err(e) => {
                self.release(size);
                Err(e)
            },
        }
    }

    /// Bytes that a writer had at hand have been put in place, or not. A copy
    /// that another fetch brought first stays; the result says whether ours is
    /// the one that is held, and else its file is to be removed.
    pub fn finish_warm_insert(
        &mut self,
        uri: SuperfileUri,
        size: u64,
        now_us: u64,
        outcome: Result<(), DiskCacheError>,
    ) -> (r: Result<bool, DiskCacheError>)
        requires
            balanced(old(self)@),
            size <= old(self)@.reserved,
        ensures
            balanced(final(self)@),
            slack(final(self)@) == slack(old(self)@),
            match outcome {
                Err(e) => r == Err::<bool, DiskCacheError>(e),
                Ok(_) => r == Ok::<bool, DiskCacheError>(
                    !old(self)@.entries.dom().contains(uri.0),
                ),
            },
            if outcome is Ok && !old(self)@.entries.dom().contains(uri.0) {
                final(self)@ == (DiskCacheView {
                    entries: old(self)@.entries.insert(uri.0, (size, now_us, true)),
                    reserved: (old(self)@.reserved - size) as u64,
                    ..old(self)@
                })
            } else {
                final(self)@ == (DiskCacheView {
                    current: (old(self)@.current - size) as u64,
                    reserved: (old(self)@.reserved - size) as u64,
                    ..old(self)@
                })
            },
    {
        match outcome {
            Ok(()) => {
                if self.contains(uri) {
                    self.release(size);
                    return Ok(false);
                }
                let ghost m = self@.entries;
                let slot: (u64, u64, bool) = (size, now_us, true);
                put_slot(&mut self.table, uri.0, slot);
                self.reserved = self.reserved - size;
                proof {
                    lemma_bytes_insert(m, uri.0, slot, false);
                    assert(m.remove(uri.0) =~= m);
                }
                Ok(true)
            },
            Err(e) => {
                self.release(size);
                Err(e)
            },
        }
    }

    /// The whole superfile is on disk and mapped. It replaces what was held of
    /// it, but only where that is still held: what was evicted in the meantime
    /// stays evicted, and the file is to be removed.
    pub fn promote(&mut self, uri: SuperfileUri, size: u64, now_us: u64) -> (r: bool)
        requires
            balanced(old(self)@),
            old(self)@.entries.dom().contains(uri.0) ==> old(self)@.entries[uri.0].0 == size,
        ensures
            balanced(final(self)@),
            slack(final(self)@) == slack(old(self)@),
            r == old(self)@.entries.dom().contains(uri.0),
            final(self)@ == if r {
                DiskCacheView {
                    entries: old(self)@.entries.insert(uri.0, (size, now_us, true)),
                    ..old(self)@
                }
            } else {
                old(self)@
            },
    {
        if !self.contains(uri) {
            return false;
        }
        let ghost m = self@.entries;
        let slot: (u64, u64, bool) = (size, now_us, true);
        put_slot(&mut self.table, uri.0, slot);
        proof {
            lemma_bytes_insert(m, uri.0, slot, false);
            lemma_bytes_without(m, uri.0, false);
        }
        true
    }

    /// What is held of the superfile goes, and its bytes with it. Where it is
    /// gone already, nothing changes: its bytes went with it.
    pub fn roll_back(&mut self, uri: SuperfileUri) -> (r: bool)
        requires
            balanced(old(self)@),
        ensures
            balanced(final(self)@),
            slack(final(self)@) == slack(old(self)@),
            r == old(self)@.entries.dom().contains(uri.0),
            !r ==> final(self)@ == old(self)@,
            r ==> final(self)@ == (DiskCacheView {
                entries: old(self)@.entries.remove(uri.0),
                current: (old(self)@.current - old(self)@.entries[uri.0].0) as u64,
                ..old(self)@
            }),
    {
        let ghost m = self@.entries;
        match take_slot(&mut self.table, uri.0) {
            Some(v) => {
                proof {
                    lemma_bytes_without(m, uri.0, false);
                }
                self.current = self.current - v.0;
                true
            },
            None => {
                proof {
                    assert(m.remove(uri.0) =~= m);
                }
                false
            },
        }
    }

    /// The bytes of the mapped superfiles.
    pub fn current_mmap_size_bytes(&self) -> (r: u64)
        requires
            balanced(self@),
        ensures
            r == slots_bytes(self@.entries, true),
    {
        let all = list_slots(&self.table);
        proof {
            lemma_list_bytes(all@, self@.entries, true);
            lemma_mapped_bytes(self@.entries);
        }
        sum_mapped(&all)
    }

    /// Figures about the cache.
    pub fn stats(&self) -> (r: CacheStats)
        requires
            balanced(self@),
        ensures
            r == (CacheStats {
                n_entries: self@.entries.dom().len() as u64,
                current_bytes: self@.current,
                budget_bytes: self@.budget,
                n_cold_fetches: self@.n_cold_fetches,
                n_evictions: self@.n_evictions,
                n_madvise_calls: self@.n_madvise_calls,
            }),
    {
        let all = list_slots(&self.table);
        proof {
            lemma_list_len(all@, self@.entries);
        }
        let n: usize = all.len();
        CacheStats {
            n_entries: n as u64,
            current_bytes: self.current,
            budget_bytes: self.budget,
            n_cold_fetches: self.n_cold_fetches,
            n_evictions: self.n_evictions,
            n_madvise_calls: self.n_madvise_calls,
        }
    }
}

proof fn lemma_list_bytes_grow(s: Seq<(u128, (u64, u64, bool))>, n: int, mapped_only: bool)
    requires
        0 <= n <= s.len(),
    ensures
        list_bytes(s.take(n), mapped_only) <= list_bytes(s, mapped_only),
    decreases s.len() - n,
{
    if n < s.len() {
        assert(s.take(n + 1).drop_last() =~= s.take(n));
        lemma_list_bytes_grow(s, n + 1, mapped_only);
    } else {
        assert(s.take(n) =~= s);
    }
}

fn sum_mapped(all: &Vec<(u128, (u64, u64, bool))>) -> (r: u64)
    requires
        list_bytes(all@, true) <= u64::MAX,
    ensures
        r == list_bytes(all@, true),
{
    let mut sum: u64 = 0;
    let mut i: usize = 0;
    assert(all@.take(0) =~= Seq::empty());
    while i < all.len()
        invariant
            i <= all@.len(),
            list_bytes(all@, true) <= u64::MAX,
            sum == list_bytes(all@.take(i as int), true),
        decreases all@.len() - i,
    {
        proof {
            assert(all@.take(i as int + 1).drop_last() =~= all@.take(i as int));
            assert(all@.take(i as int + 1).last() == all@[i as int]);
            lemma_list_bytes_grow(all@, i as int + 1, true);
        }
        let v = all[i].1;
        if v.2 {
            sum = sum + v.0;
        }
        i = i + 1;
    }
    assert(all@.take(i as int) =~= all@);
    sum
}

// ---------------------------------------------------------------- sweeps

/// Microseconds of a second.
pub const MICROS: u64 = 1_000_000;

/// That a mapped superfile has not been used for the threshold. Moments after
/// `now` count as now.
pub open spec fn is_idle(v: (u64, u64, bool), now_us: u64, threshold_secs: u64) -> bool {
    let threshold = if threshold_secs * MICROS > u64::MAX {
        u64::MAX as int
    } else {
        threshold_secs * MICROS
    };
    let idle = if now_us > v.1 {
        now_us - v.1
    } else {
        0
    };
    v.2 && idle >= threshold
}

/// That a list holds the idle superfiles, each once.
pub open spec fn lists_idle(
    s: Seq<SuperfileUri>,
    m: Map<u128, (u64, u64, bool)>,
    now_us: u64,
    threshold_secs: u64,
) -> bool {
    &&& forall|i: int, j: int| 0 <= i < j < s.len() ==> #[trigger] s[i] != #[trigger] s[j]
    &&& forall|i: int|
        0 <= i < s.len() ==> m.dom().contains((#[trigger] s[i]).0) && is_idle(
            m[s[i].0],
            now_us,
            threshold_secs,
        )
    &&& forall|k: u128|
        #[trigger] m.dom().contains(k) && is_idle(m[k], now_us, threshold_secs) ==> s.contains(
            SuperfileUri(k),
        )
}

/// That the second comes no earlier than the first in the order of the last
/// use.
pub open spec fn oldest_first(s: Seq<(u128, (u64, u64, bool))>) -> bool {
    forall|i: int, j: int|
        0 <= i <= j < s.len() ==> (#[trigger] s[i]).1.1 <= (#[trigger] s[j]).1.1
}

/// How many of the superfiles, in this order, give their pages back: one after
/// the other until the rest is within the budget.
pub open spec fn sweep_count(
    s: Seq<(u128, (u64, u64, bool))>,
    total: int,
    budget: u64,
    from: int,
) -> int
    decreases s.len() - from,
{
    if from >= s.len() || from < 0 || total <= budget {
        from
    } else {
        sweep_count(s, total - s[from].1.0, budget, from + 1)
    }
}

/// The keys of the first `n` of a list.
pub open spec fn first_uris(s: Seq<(u128, (u64, u64, bool))>, n: int) -> Seq<SuperfileUri> {
    Seq::new(n as nat, |i: int| SuperfileUri(s[i].0))
}

/// The mapped entries of a map.
pub open spec fn mapped_entries(m: Map<u128, (u64, u64, bool)>) -> Map<u128, (u64, u64, bool)> {
    m.restrict(Set::new(|k: u128| m.dom().contains(k) && m[k].2))
}

/// That these superfiles give their pages back for the budget: mapped ones,
/// those whose last use is longest ago first, and no more than needed.
pub open spec fn swept_for(
    r: Seq<SuperfileUri>,
    m: Map<u128, (u64, u64, bool)>,
    budget: u64,
) -> bool {
    exists|s: Seq<(u128, (u64, u64, bool))>|
        #![trigger oldest_first(s)]
        lists(s, mapped_entries(m)) && oldest_first(s) && r == first_uris(
            s,
            sweep_count(s, slots_bytes(m, true) as int, budget, 0),
        )
}

impl DiskCacheStore {
    /// The mapped superfiles that have not been used for so long; their pages
    /// are to be given back. They stay in the cache.
    pub fn sweep_once(&mut self, now_us: u64, threshold_secs: u64) -> (r: Vec<SuperfileUri>)
        requires
            balanced(old(self)@),
        ensures
            balanced(final(self)@),
            lists_idle(r@, old(self)@.entries, now_us, threshold_secs),
            final(self)@ == (DiskCacheView {
                n_madvise_calls: bumped(old(self)@.n_madvise_calls, r@.len()),
                ..old(self)@
            }),
    {
        let threshold: u64 = if threshold_secs > u64::MAX / MICROS {
            u64::MAX
        } else {
            threshold_secs * MICROS
        };
        let ghost m = self@.entries;
        let all = list_slots(&self.table);
        let mut out: Vec<SuperfileUri> = Vec::new();
        let mut i: usize = 0;
        while i < all.len()
            invariant
                i <= all@.len(),
                lists(all@, m),
                threshold == if threshold_secs * MICROS > u64::MAX {
                    u64::MAX as int
                } else {
                    threshold_secs * MICROS
                },
                forall|a: int, b: int|
                    0 <= a < b < out@.len() ==> #[trigger] out@[a] != #[trigger] out@[b],
                forall|k: int|
                    0 <= k < out@.len() ==> listed(all@.take(i as int), (#[trigger] out@[k]).0)
                        && m.dom().contains(out@[k].0) && is_idle(
                        m[out@[k].0],
                        now_us,
                        threshold_secs,
                    ),
                forall|k: int|
                    0 <= k < i && is_idle((#[trigger] all@[k]).1, now_us, threshold_secs)
                        ==> out@.contains(SuperfileUri(all@[k].0)),
            decreases all@.len() - i,
        {
            let (key, v) = all[i];
            let idle: u64 = if now_us > v.1 {
                now_us - v.1
            } else {
                0
            };
            let ghost before = out@;
            if v.2 && idle >= threshold {
                proof {
                    assert forall|k: int| 0 <= k < before.len() implies (#[trigger] before[k]).0
                        != key by {
                        let j = choose|j: int|
                            0 <= j < all@.take(i as int).len() && (#[trigger] all@.take(
                                i as int,
                            )[j]).0 == before[k].0;
                        assert(all@[j].0 != all@[i as int].0);
                    }
                }
                out.push(SuperfileUri(key));
                assert(out@[before.len() as int] == SuperfileUri(key));
            }
            proof {
                let now = all@.take(i as int + 1);
                assert(now[i as int].0 == key);
                assert forall|k: int| 0 <= k < out@.len() implies listed(
                    now,
                    (#[trigger] out@[k]).0,
                ) && m.dom().contains(out@[k].0) && is_idle(
                    m[out@[k].0],
                    now_us,
                    threshold_secs,
                ) by {
                    if k < before.len() {
                        assert(out@[k] == before[k]);
                        let j = choose|j: int|
                            0 <= j < all@.take(i as int).len() && (#[trigger] all@.take(
                                i as int,
                            )[j]).0 == before[k].0;
                        assert(now[j].0 == before[k].0);
                    }
                }
                assert forall|k: int|
                    0 <= k < i + 1 && is_idle(
                        (#[trigger] all@[k]).1,
                        now_us,
                        threshold_secs,
                    ) implies out@.contains(SuperfileUri(all@[k].0)) by {
                    if k < i {
                        let j = choose|j: int|
                            0 <= j < before.len() && before[j] == SuperfileUri(all@[k].0);
                        assert(out@[j] == before[j]);
                    }
                }
            }
            i = i + 1;
        }
        proof {
            assert forall|k: u128|
                #[trigger] m.dom().contains(k) && is_idle(
                    m[k],
                    now_us,
                    threshold_secs,
                ) implies out@.contains(SuperfileUri(k)) by {
                assert(listed(all@, k));
                let j = choose|j: int| 0 <= j < all@.len() && (#[trigger] all@[j]).0 == k;
                assert(all@[j].1 == m[k]);
            }
        }
        let n: usize = out.len();
        self.n_madvise_calls = bump(self.n_madvise_calls, n as u64);
        out
    }

    /// The mapped superfiles whose pages are to be given back so that the
    /// mapped bytes are within the budget. They stay in the cache.
    pub fn sweep_for_budget(&mut self, budget: u64) -> (r: Vec<SuperfileUri>)
        requires
            balanced(old(self)@),
        ensures
            balanced(final(self)@),
            swept_for(r@, old(self)@.entries, budget),
            slots_bytes(old(self)@.entries, true) <= budget ==> r@.len() == 0,
            final(self)@ == (DiskCacheView {
                n_madvise_calls: bumped(old(self)@.n_madvise_calls, r@.len()),
                ..old(self)@
            }),
    {
        let ghost m = self@.entries;
        let mut total: u64 = self.current_mmap_size_bytes();
        let all = list_slots(&self.table);
        let mapped = only_mapped(&all, Ghost(m));
        let sorted = sort_oldest_first(mapped);
        proof {
            lemma_same_listed(mapped@, sorted@, mapped_entries(m));
            lemma_mapped_total(m, sorted@);
        }
        let ghost start = total;
        let mut out: Vec<SuperfileUri> = Vec::new();
        let mut i: usize = 0;
        while i < sorted.len() && total > budget
            invariant
                i <= sorted@.len(),
                out@ == first_uris(sorted@, i as int),
                total == start - list_bytes(sorted@.take(i as int), false),
                list_bytes(sorted@, false) == start,
                sweep_count(sorted@, start as int, budget, 0) == sweep_count(
                    sorted@,
                    total as int,
                    budget,
                    i as int,
                ),
            decreases sorted@.len() - i,
        {
            let (key, v) = sorted[i];
            proof {
                assert(sorted@.take(i as int + 1).drop_last() =~= sorted@.take(i as int));
                assert(sorted@.take(i as int + 1).last() == sorted@[i as int]);
                lemma_list_bytes_grow(sorted@, i as int + 1, false);
            }
            total = total - v.0;
            out.push(SuperfileUri(key));
            i = i + 1;
            assert(out@ =~= first_uris(sorted@, i as int));
        }
        let n: usize = out.len();
        self.n_madvise_calls = bump(self.n_madvise_calls, n as u64);
        assert(oldest_first(sorted@));
        out
    }
}

/// The mapped ones of a list.
fn only_mapped(all: &Vec<(u128, (u64, u64, bool))>, Ghost(m): Ghost<Map<u128, (u64, u64, bool)>>)
    -> (r: Vec<(u128, (u64, u64, bool))>)
    requires
        lists(all@, m),
    ensures
        lists(r@, mapped_entries(m)),
{
    let mut out: Vec<(u128, (u64, u64, bool))> = Vec::new();
    let mut i: usize = 0;
    while i < all.len()
        invariant
            i <= all@.len(),
            lists(all@, m),
            forall|a: int, b: int|
                0 <= a < b < out@.len() ==> (#[trigger] out@[a]).0 != (#[trigger] out@[b]).0,
            forall|k: int|
                0 <= k < out@.len() ==> all@.take(i as int).contains(#[trigger] out@[k])
                    && out@[k].1.2,
            forall|k: int|
                0 <= k < i && (#[trigger] all@[k]).1.2 ==> listed(out@, all@[k].0),
        decreases all@.len() - i,
    {
        let p = all[i];
        let ghost before = out@;
        proof {
            assert forall|k: int| 0 <= k < before.len() implies (#[trigger] before[k]).0 != p.0 by {
                let j = choose|j: int|
                    0 <= j < all@.take(i as int).len() && all@.take(i as int)[j] == before[k];
                assert(all@[j].0 != all@[i as int].0);
            }
        }
        if p.1.2 {
            out.push(p);
            assert(out@[before.len() as int].0 == p.0);
        }
        proof {
            let now = all@.take(i as int + 1);
            assert(now[i as int] == p);
            assert forall|k: int| 0 <= k < out@.len() implies now.contains(#[trigger] out@[k])
                && out@[k].1.2 by {
                if k < before.len() {
                    assert(out@[k] == before[k]);
                    let j = choose|j: int|
                        0 <= j < all@.take(i as int).len() && all@.take(i as int)[j] == before[k];
                    assert(now[j] == before[k]);
                }
            }
            assert forall|k: int| 0 <= k < i + 1 && (#[trigger] all@[k]).1.2 implies listed(
                out@,
                all@[k].0,
            ) by {
                if k < i {
                    let j = choose|j: int|
                        0 <= j < before.len() && (#[trigger] before[j]).0 == all@[k].0;
                    assert(out@[j].0 == all@[k].0);
                }
            }
        }
        i = i + 1;
    }
    proof {
        let n = mapped_entries(m);
        assert forall|k: int| 0 <= k < out@.len() implies n.dom().contains((#[trigger] out@[k]).0)
            && n[out@[k].0] == out@[k].1 by {
            let j = choose|j: int|
                0 <= j < all@.take(i as int).len() && all@.take(i as int)[j] == out@[k];
            assert(m.dom().contains(all@[j].0));
        }
        assert forall|k: u128| #[trigger] n.dom().contains(k) implies listed(out@, k) by {
            assert(m.dom().contains(k));
            let j = choose|j: int| 0 <= j < all@.len() && (#[trigger] all@[j]).0 == k;
            assert(all@[j].1.2);
        }
    }
    out
}

/// A list in the order of the last use.
fn sort_oldest_first(list: Vec<(u128, (u64, u64, bool))>) -> (r: Vec<(u128, (u64, u64, bool))>)
    ensures
        oldest_first(r@),
        list@.to_multiset() == r@.to_multiset(),
{
    let mut out: Vec<(u128, (u64, u64, bool))> = Vec::new();
    let mut i: usize = 0;
    assert(list@.take(0) =~= out@);
    while i < list.len()
        invariant
            i <= list@.len(),
            out@.len() == i,
            oldest_first(out@),
            list@.take(i as int).to_multiset() == out@.to_multiset(),
        decreases list@.len() - i,
    {
        let p = list[i];
        let mut pos: usize = i;
        while pos > 0 && out[pos - 1].1.1 > p.1.1
            invariant
                pos <= i,
                out@.len() == i,
                forall|k: int| pos <= k < i ==> (#[trigger] out@[k]).1.1 > p.1.1,
            decreases pos,
        {
            pos = pos - 1;
        }
        let ghost before = out@;
        out.insert(pos, p);
        proof {
            assert(list@.take(i as int + 1) =~= list@.take(i as int).push(p));
            assert(out@ =~= before.insert(pos as int, p));
            vstd::seq_lib::to_multiset_build(list@.take(i as int), p);
            vstd::seq_lib::to_multiset_insert(before, pos as int, p);
            assert forall|a: int, b: int| 0 <= a <= b < out@.len() implies (#[trigger] out@[a]).1.1
                <= (#[trigger] out@[b]).1.1 by {
                let oa = if a < pos {
                    a
                } else {
                    a - 1
                };
                let ob = if b < pos {
                    b
                } else {
                    b - 1
                };
                if a != pos && b != pos {
                    assert(out@[a] == before[oa] && out@[b] == before[ob]);
                    assert(before[oa].1.1 <= before[ob].1.1);
                } else if a < pos {
                    assert(out@[a] == before[a]);
                    assert(before[a].1.1 <= before[pos as int - 1].1.1);
                } else if b > pos {
                    assert(out@[b] == before[ob]);
                }
            }
        }
        i = i + 1;
    }
    assert(list@.take(i as int) =~= list@);
    out
}

/// A list with the same members lists the same map.
proof fn lemma_same_listed(
    a: Seq<(u128, (u64, u64, bool))>,
    b: Seq<(u128, (u64, u64, bool))>,
    m: Map<u128, (u64, u64, bool)>,
)
    requires
        lists(a, m),
        a.to_multiset() == b.to_multiset(),
    ensures
        lists(b, m),
{
    broadcast use vstd::seq_lib::group_to_multiset_ensures;

    assert(a.no_duplicates()) by {
        assert forall|i: int, j: int| 0 <= i < a.len() && 0 <= j < a.len() && i != j implies a[i]
            != a[j] by {
            if i < j {
                assert(a[i].0 != a[j].0);
            } else {
                assert(a[j].0 != a[i].0);
            }
        }
    }
    a.lemma_multiset_has_no_duplicates();
    assert(b.no_duplicates()) by {
        assert forall|x: (u128, (u64, u64, bool))|
            b.to_multiset().contains(x) implies b.to_multiset().count(x) == 1 by {
            assert(a.to_multiset().contains(x));
        }
        b.lemma_multiset_has_no_duplicates_conv();
    }
    assert forall|i: int| 0 <= i < b.len() implies a.contains(#[trigger] b[i]) by {
        assert(b.to_multiset().contains(b[i]));
        assert(a.to_multiset().contains(b[i]));
    }
    assert forall|i: int| 0 <= i < b.len() implies m.dom().contains((#[trigger] b[i]).0)
        && m[b[i].0] == b[i].1 by {
        assert(a.contains(b[i]));
        let j = choose|j: int| 0 <= j < a.len() && a[j] == b[i];
        assert(m.dom().contains(a[j].0));
    }
    assert forall|i: int, j: int| 0 <= i < j < b.len() implies (#[trigger] b[i]).0 != (
    #[trigger] b[j]).0 by {
        if b[i].0 == b[j].0 {
            assert(b[i].1 == m[b[i].0]);
            assert(b[j].1 == m[b[j].0]);
            assert(b[i] == b[j]);
        }
    }
    assert forall|k: u128| #[trigger] m.dom().contains(k) implies listed(b, k) by {
        assert(listed(a, k));
        let i = choose|i: int| 0 <= i < a.len() && (#[trigger] a[i]).0 == k;
        assert(a.to_multiset().contains(a[i]));
        assert(b.to_multiset().contains(a[i]));
        let j = choose|j: int| 0 <= j < b.len() && b[j] == a[i];
        assert(b[j].0 == k);
    }
}

/// The mapped entries of a map have its mapped bytes.
proof fn lemma_mapped_total(m: Map<u128, (u64, u64, bool)>, s: Seq<(u128, (u64, u64, bool))>)
    requires
        m.dom().finite(),
        lists(s, mapped_entries(m)),
    ensures
        list_bytes(s, false) == slots_bytes(m, true),
{
    let n = mapped_entries(m);
    assert(n.dom().subset_of(m.dom()));
    vstd::set_lib::lemma_len_subset(n.dom(), m.dom());
    lemma_list_bytes(s, n, false);
    lemma_restricted_bytes(m);
}

proof fn lemma_restricted_bytes(m: Map<u128, (u64, u64, bool)>)
    requires
        m.dom().finite(),
    ensures
        mapped_entries(m).dom().finite(),
        slots_bytes(mapped_entries(m), false) == slots_bytes(m, true),
    decreases m.dom().len(),
{
    let n = mapped_entries(m);
    assert(n.dom().subset_of(m.dom()));
    vstd::set_lib::lemma_len_subset(n.dom(), m.dom());
    if m.dom().len() == 0 {
        assert(n.dom() =~= Set::empty());
    } else {
        let k = m.dom().choose();
        assert(m.dom().contains(k));
        let rest = m.remove(k);
        lemma_restricted_bytes(rest);
        lemma_bytes_without(m, k, true);
        if m[k].2 {
            assert(n.dom().contains(k));
            lemma_bytes_without(n, k, false);
            assert(n.remove(k) =~= mapped_entries(rest));
        } else {
            assert(n =~= mapped_entries(rest));
        }
    }
}

// ---------------------------------------------------------------- laws

/// A mapped superfile is swept just where it was last used the threshold ago
/// or before that; with a threshold of zero always, and with one that outlasts
/// the clock only at its end.
pub proof fn sweeps_spare_the_recently_used(v: (u64, u64, bool), now_us: u64, threshold_secs: u64)
    ensures
        !v.2 ==> !is_idle(v, now_us, threshold_secs),
        threshold_secs * 1_000_000 <= u64::MAX ==> is_idle(v, now_us, threshold_secs) == (v.2 && (
        threshold_secs == 0 || v.1 + threshold_secs * 1_000_000 <= now_us)),
        threshold_secs * 1_000_000 > u64::MAX ==> is_idle(v, now_us, threshold_secs) == (v.2 && v.1
            == 0 && now_us == u64::MAX),
{
}

/// What a superfile was used for later it outlives: of two, the one that was
/// used later is swept no sooner.
pub proof fn use_puts_off_the_sweep(
    a: (u64, u64, bool),
    b: (u64, u64, bool),
    now_us: u64,
    later_us: u64,
    threshold_secs: u64,
)
    requires
        a.2 && b.2,
        a.1 <= b.1,
        now_us <= later_us,
    ensures
        is_idle(b, now_us, threshold_secs) ==> is_idle(a, later_us, threshold_secs),
{
}

/// What is left of a map without the superfiles.
pub open spec fn without(
    m: Map<u128, (u64, u64, bool)>,
    gone: Seq<SuperfileUri>,
) -> Map<u128, (u64, u64, bool)> {
    m.restrict(Set::new(|k: u128| m.dom().contains(k) && !gone.contains(SuperfileUri(k))))
}

proof fn lemma_sweep_count(
    s: Seq<(u128, (u64, u64, bool))>,
    start: int,
    budget: u64,
    from: int,
)
    requires
        0 <= from <= s.len(),
    ensures
        ({
            let n = sweep_count(s, start - list_bytes(s.take(from), false), budget, from);
            &&& from <= n <= s.len()
            &&& n == s.len() || start - list_bytes(s.take(n), false) <= budget
            &&& n > from ==> start - list_bytes(s.take(n - 1), false) > budget
        }),
    decreases s.len() - from,
{
    if from < s.len() && start - list_bytes(s.take(from), false) > budget {
        assert(s.take(from + 1).drop_last() =~= s.take(from));
        assert(s.take(from + 1).last() == s[from]);
        lemma_sweep_count(s, start, budget, from + 1);
    }
}

proof fn lemma_without_first(m: Map<u128, (u64, u64, bool)>, s: Seq<(u128, (u64, u64, bool))>, n: int)
    requires
        m.dom().finite(),
        lists(s, mapped_entries(m)),
        0 <= n <= s.len(),
    ensures
        without(m, first_uris(s, n)).dom().finite(),
        slots_bytes(without(m, first_uris(s, n)), true) == slots_bytes(m, true) - list_bytes(
            s.take(n),
            false,
        ),
    decreases n,
{
    let left = without(m, first_uris(s, n));
    assert(left.dom().subset_of(m.dom()));
    vstd::set_lib::lemma_len_subset(left.dom(), m.dom());
    if n == 0 {
        assert(left =~= m);
    } else {
        let before = without(m, first_uris(s, n - 1));
        let key = s[n - 1].0;
        lemma_without_first(m, s, n - 1);
        assert(s.take(n).drop_last() =~= s.take(n - 1));
        assert(s.take(n).last() == s[n - 1]);
        assert(mapped_entries(m).dom().contains(s[n - 1].0));
        assert(before.dom().contains(key)) by {
            assert(!first_uris(s, n - 1).contains(SuperfileUri(key))) by {
                let then = first_uris(s, n - 1);
                if then.contains(SuperfileUri(key)) {
                    let i = choose|i: int| 0 <= i < then.len() && then[i] == SuperfileUri(key);
                    assert(s[i].0 == s[n - 1].0);
                }
            }
        }
        assert(left =~= before.remove(key)) by {
            assert forall|k: u128| #[trigger] left.dom().contains(k) <==> before.remove(
                key,
            ).dom().contains(k) by {
                let now = first_uris(s, n);
                let then = first_uris(s, n - 1);
                if now.contains(SuperfileUri(k)) {
                    let i = choose|i: int| 0 <= i < now.len() && now[i] == SuperfileUri(k);
                    if i < n - 1 {
                        assert(then[i] == SuperfileUri(k));
                    }
                }
                if then.contains(SuperfileUri(k)) {
                    let i = choose|i: int| 0 <= i < then.len() && then[i] == SuperfileUri(k);
                    assert(now[i] == SuperfileUri(k));
                }
                assert(now[n - 1] == SuperfileUri(key));
            }
        }
        lemma_bytes_without(before, key, true);
    }
}

/// A sweep for a budget takes mapped superfiles, each once and by their last
/// use, until what stays mapped is within the budget, and no more than that
/// takes. None that stays mapped was used before one that is taken.
pub proof fn sweeps_come_within_the_budget(
    r: Seq<SuperfileUri>,
    m: Map<u128, (u64, u64, bool)>,
    budget: u64,
)
    requires
        m.dom().finite(),
        swept_for(r, m, budget),
    ensures
        r.no_duplicates(),
        forall|i: int|
            0 <= i < r.len() ==> m.dom().contains((#[trigger] r[i]).0) && m[r[i].0].2,
        slots_bytes(without(m, r), true) <= budget,
        r.len() > 0 ==> slots_bytes(without(m, r.drop_last()), true) > budget,
        forall|i: int, j: int|
            0 <= i <= j < r.len() ==> m[(#[trigger] r[i]).0].1 <= m[(#[trigger] r[j]).0].1,
        forall|i: int, k: u128|
            0 <= i < r.len() && #[trigger] m.dom().contains(k) && m[k].2 && !r.contains(
                SuperfileUri(k),
            ) ==> m[(#[trigger] r[i]).0].1 <= m[k].1,
{
    let start = slots_bytes(m, true) as int;
    let s = choose|s: Seq<(u128, (u64, u64, bool))>|
        #![trigger oldest_first(s)]
        lists(s, mapped_entries(m)) && oldest_first(s) && r == first_uris(
            s,
            sweep_count(s, start, budget, 0),
        );
    let n = sweep_count(s, start, budget, 0);
    let mm = mapped_entries(m);
    assert(s.take(0) =~= Seq::empty());
    lemma_sweep_count(s, start, budget, 0);
    lemma_mapped_total(m, s);
    assert(s.take(s.len() as int) =~= s);
    lemma_without_first(m, s, n);
    if n > 0 {
        lemma_without_first(m, s, n - 1);
        assert(r.drop_last() =~= first_uris(s, n - 1));
    }
    assert forall|i: int| 0 <= i < r.len() implies m.dom().contains((#[trigger] r[i]).0)
        && m[r[i].0].2 && m[r[i].0] == s[i].1 by {
        assert(mm.dom().contains(s[i].0));
    }
    assert forall|i: int, j: int| 0 <= i < r.len() && 0 <= j < r.len() && i != j implies r[i]
        != r[j] by {
        if i < j {
            assert(s[i].0 != s[j].0);
        } else {
            assert(s[j].0 != s[i].0);
        }
    }
    assert forall|i: int, j: int| 0 <= i <= j < r.len() implies m[(#[trigger] r[i]).0].1 <= m[(
    #[trigger] r[j]).0].1 by {
        assert(s[i].1.1 <= s[j].1.1);
    }
    assert forall|i: int, k: u128|
        0 <= i < r.len() && #[trigger] m.dom().contains(k) && m[k].2 && !r.contains(
            SuperfileUri(k),
        ) implies m[(#[trigger] r[i]).0].1 <= m[k].1 by {
        assert(mm.dom().contains(k));
        let j = choose|j: int| 0 <= j < s.len() && (#[trigger] s[j]).0 == k;
        if j < n {
            assert(r[j] == SuperfileUri(k));
        }
        assert(s[i].1.1 <= s[j].1.1);
    }
}

/// An eviction takes the victims and nothing else: what is no victim stays as
/// it is. Those that come back are the victims that were there, each once.
pub proof fn evictions_take_the_victims(
    m: Map<u128, (u64, u64, bool)>,
    victims: Seq<SuperfileUri>,
)
    ensures
        evicted_entries(m, victims) == without(m, victims),
        evicted_uris(m, victims).no_duplicates(),
        forall|u: SuperfileUri| #[trigger]
            evicted_uris(m, victims).contains(u) <==> victims.contains(u) && m.dom().contains(u.0),
        victims.no_duplicates() ==> evicted_uris(m, victims) == victims.filter(
            |u: SuperfileUri| m.dom().contains(u.0),
        ),
    decreases victims.len(),
{
    reveal(Seq::filter);
    let f = |u: SuperfileUri| m.dom().contains(u.0);
    if victims.len() == 0 {
        assert(evicted_entries(m, victims) =~= without(m, victims));
        assert(victims.filter(f) =~= Seq::empty());
    } else {
        let rest = victims.drop_last();
        let last = victims.last();
        evictions_take_the_victims(m, rest);
        assert forall|u: SuperfileUri| #[trigger]
            victims.contains(u) <==> rest.contains(u) || u == last by {
            if victims.contains(u) {
                let i = choose|i: int| 0 <= i < victims.len() && victims[i] == u;
                if i < rest.len() {
                    assert(rest[i] == u);
                }
            }
            if rest.contains(u) {
                let i = choose|i: int| 0 <= i < rest.len() && rest[i] == u;
                assert(victims[i] == u);
            }
            assert(victims[victims.len() - 1] == last);
        }
        assert(evicted_entries(m, victims) =~= without(m, victims)) by {
            assert forall|k: u128| #[trigger]
                victims.contains(SuperfileUri(k)) <==> rest.contains(SuperfileUri(k)) || k
                    == last.0 by {
                assert(SuperfileUri(k) == last <==> k == last.0);
            }
        }
        let before = evicted_uris(m, rest);
        let all = evicted_uris(m, victims);
        let there = without(m, rest).dom().contains(last.0);
        assert(SuperfileUri(last.0) == last);
        assert(there <==> m.dom().contains(last.0) && !rest.contains(last));
        assert forall|u: SuperfileUri| #[trigger] all.contains(u) <==> victims.contains(u)
            && m.dom().contains(u.0) by {
            if there {
                assert(all == before.push(last));
                if all.contains(u) {
                    let i = choose|i: int| 0 <= i < all.len() && all[i] == u;
                    if i < before.len() {
                        assert(before[i] == u);
                        assert(before.contains(u));
                    }
                }
                if before.contains(u) {
                    let i = choose|i: int| 0 <= i < before.len() && before[i] == u;
                    assert(all[i] == u);
                }
                assert(all[before.len() as int] == last);
            }
            assert(before.contains(u) <==> rest.contains(u) && m.dom().contains(u.0));
        }
        if there {
            assert(!before.contains(last));
            assert forall|i: int, j: int|
                0 <= i < all.len() && 0 <= j < all.len() && i != j implies all[i] != all[j] by {
                if i < before.len() && j < before.len() {
                    assert(before[i] != before[j]);
                } else if i < before.len() {
                    assert(before.contains(before[i]));
                } else {
                    assert(before.contains(before[j]));
                }
            }
        }
        if victims.no_duplicates() {
            assert(rest.no_duplicates());
            assert(!rest.contains(last)) by {
                if rest.contains(last) {
                    let i = choose|i: int| 0 <= i < rest.len() && rest[i] == last;
                    assert(victims[i] == victims[victims.len() - 1]);
                }
            }
        }
    }
}

/// A counter counts, as far as it can, and goes on from there.
pub proof fn counters_count_on(a: u64, n: nat, more: nat)
    ensures
        a + n <= u64::MAX ==> bumped(a, n) == a + n,
        bumped(bumped(a, n), more) == bumped(a, n + more),
        bumped(u64::MAX, 1) == 0,
{
}

} // verus!
