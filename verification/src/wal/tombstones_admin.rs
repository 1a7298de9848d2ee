//! Tombstones of superfiles as compaction needs them: no bits are added while
//! it works, and the rows that they mark are left out.

use vstd::prelude::*;

use crate::error::joined;
use crate::ids::{id_text, write_id};

verus! {

// ---------------------------------------------------------------- bitmaps

/// `roaring::RoaringBitmap`: a set of 32-bit numbers.
#[verifier::external_type_specification]
#[verifier::external_body]
pub struct ExRoaringBitmap(roaring::RoaringBitmap);

/// The numbers that a bitmap holds.
pub uninterp spec fn bits(b: roaring::RoaringBitmap) -> Set<u32>;

/// `RoaringBitmap::new`: a bitmap without numbers.
#[verifier::external_body]
pub(crate) fn no_bits() -> (r: roaring::RoaringBitmap)
    ensures
        bits(r) == Set::<u32>::empty(),
{
    roaring::RoaringBitmap::new()
}

/// `RoaringBitmap::contains`: whether the bitmap holds the number.
#[verifier::external_body]
pub(crate) fn has_number(b: &roaring::RoaringBitmap, x: u32) -> (r: bool)
    ensures
        r == bits(*b).contains(x),
{
    b.contains(x)
}

/// `RoaringBitmap::clone`: a bitmap with the same numbers.
#[verifier::external_body]
pub(crate) fn copy_bits(b: &roaring::RoaringBitmap) -> (r: roaring::RoaringBitmap)
    ensures
        bits(r) == bits(*b),
{
    b.clone()
}

// ---------------------------------------------------------------- time

/// A point in time: seconds since the Unix epoch, and nanoseconds.
#[derive(Clone, Copy, PartialEq, Eq, Structural, Debug)]
pub struct Moment {
    pub secs: i64,
    pub nanos: u32,
}

/// A span of time.
#[derive(Clone, Copy, PartialEq, Eq, Structural, Debug)]
pub struct Span {
    pub secs: u64,
    pub nanos: u32,
}

/// Nanoseconds since the epoch.
pub open spec fn moment_nanos(m: Moment) -> int {
    m.secs * 1_000_000_000 + m.nanos
}

/// The nanoseconds of a span.
pub open spec fn span_nanos(s: Span) -> int {
    s.secs * 1_000_000_000 + s.nanos
}

/// The second of the day.
pub open spec fn time_of_day(m: Moment) -> int {
    m.secs as int % 86_400
}

/// The leap second between two moments that their seconds do not count: that of
/// the one whose second comes earlier in the day. A moment in a leap second has
/// a billion nanoseconds or more.
pub open spec fn leap_between(from: Moment, to: Moment) -> int {
    if time_of_day(to) > time_of_day(from) && from.nanos >= 1_000_000_000 {
        1
    } else if time_of_day(to) < time_of_day(from) && to.nanos >= 1_000_000_000 {
        -1
    } else {
        0
    }
}

/// The nanoseconds from one moment to another, as `DateTime`s are subtracted.
pub open spec fn elapsed(from: Moment, to: Moment) -> int {
    moment_nanos(to) - moment_nanos(from) + leap_between(from, to) * 1_000_000_000
}

/// That a seal is older than the span, or as old. A seal from the future has no
/// age.
pub open spec fn stale(sealed_at: Moment, now: Moment, timeout: Span) -> bool {
    let age = elapsed(sealed_at, now);
    (if age < 0 {
        0
    } else {
        age
    }) >= span_nanos(timeout)
}

fn second_of_day(m: Moment) -> (r: u128)
    ensures
        r == time_of_day(m),
{
    let days: i128 = 107_000_000_000_000;
    let shifted: i128 = m.secs as i128 + days * 86_400;
    proof {
        vstd::arithmetic::div_mod::lemma_mod_multiples_vanish(
            107_000_000_000_000,
            m.secs as int,
            86_400,
        );
    }
    shifted as u128 % 86_400
}

/// Whether a seal is so old that whoever set it is taken for dead.
pub fn is_seal_stale(sealed_at: Moment, now: Moment, stale_timeout: Span) -> (r: bool)
    ensures
        r == stale(sealed_at, now, stale_timeout),
{
    let a: i128 = sealed_at.secs as i128 * 1_000_000_000 + sealed_at.nanos as i128;
    let b: i128 = now.secs as i128 * 1_000_000_000 + now.nanos as i128;
    let t: i128 = stale_timeout.secs as i128 * 1_000_000_000 + stale_timeout.nanos as i128;
    let (from, to) = (second_of_day(sealed_at), second_of_day(now));
    let leap: i128 = if to > from && sealed_at.nanos >= 1_000_000_000 {
        1_000_000_000
    } else if to < from && now.nanos >= 1_000_000_000 {
        -1_000_000_000
    } else {
        0
    };
    let age: i128 = b - a + leap;
    if age < 0 {
        0 >= t
    } else {
        age >= t
    }
}

// ---------------------------------------------------------------- sidecars

/// Who sealed a sidecar, and when.
#[derive(Clone, Copy, PartialEq, Eq, Structural, Debug)]
pub struct SealRecord {
    pub compaction_id: u128,
    pub sealed_at: Moment,
}

/// The tombstones of a superfile. While it is sealed no bits are added.
#[derive(Debug)]
pub struct TombstonesSidecar {
    pub seal: Option<SealRecord>,
    pub bitmap: roaring::RoaringBitmap,
}

pub struct SidecarView {
    pub seal: Option<SealRecord>,
    pub bits: Set<u32>,
}

impl View for TombstonesSidecar {
    type V = SidecarView;

    open spec fn view(&self) -> SidecarView {
        SidecarView { seal: self.seal, bits: bits(self.bitmap) }
    }
}

/// What the store of sidecars answers when a request fails.
#[derive(Debug)]
pub enum WalStoreError {
    /// The sidecar is not the one that was read.
    CasFailed { detail: String },
    Failed(String),
}

/// Errors of sealing and reading tombstones.
#[derive(Debug)]
pub enum TombstonesAdminError {
    /// Another compaction is at work.
    AlreadySealed { superfile_id: u128, existing_compaction_id: u128 },
    /// Another writer was faster.
    CasLost { superfile_id: u128 },
    WalStore(WalStoreError),
}

/// The text of a store error.
pub open spec fn store_error_text(e: WalStoreError) -> Seq<char> {
    match e {
        WalStoreError::CasFailed { detail } => detail@,
        WalStoreError::Failed(detail) => detail@,
    }
}

/// The text of an error.
pub open spec fn admin_error_text(e: TombstonesAdminError) -> Seq<char> {
    match e {
        TombstonesAdminError::AlreadySealed { superfile_id, existing_compaction_id } =>
            "tombstone sidecar for "@ + id_text(superfile_id)
            + " is already sealed (compaction_id="@ + id_text(existing_compaction_id) + ")"@,
        TombstonesAdminError::CasLost { superfile_id } =>
            "CAS race lost while sealing sidecar for "@ + id_text(superfile_id),
        TombstonesAdminError::WalStore(e) => "wal store error: "@ + store_error_text(e),
    }
}

impl TombstonesAdminError {
    /// The error as a line of text.
    pub fn message(&self) -> (r: String)
        ensures
            r@ == admin_error_text(*self),
    {
        match self {
            TombstonesAdminError::AlreadySealed { superfile_id, existing_compaction_id } => {
                let mut s = "tombstone sidecar for ".to_string();
                s.append(write_id(*superfile_id).as_str());
                s.append(" is already sealed (compaction_id=");
                s.append(write_id(*existing_compaction_id).as_str());
                s.append(")");
                s
            },
            TombstonesAdminError::CasLost { superfile_id } => joined(
                "CAS race lost while sealing sidecar for ",
                write_id(*superfile_id).as_str(),
            ),
            TombstonesAdminError::WalStore(WalStoreError::CasFailed { detail }) => {
                joined("wal store error: ", detail.as_str())
            },
            TombstonesAdminError::WalStore(WalStoreError::Failed(detail)) => {
                joined("wal store error: ", detail.as_str())
            },
        }
    }
}

// ---------------------------------------------------------------- sealing

/// What sealing a sidecar comes to.
#[derive(Debug)]
pub enum SealPlan {
    /// The compaction has sealed it already.
    Keep,
    /// Write this in its place.
    Write(TombstonesSidecar),
    Refuse(TombstonesAdminError),
}

/// That sealing leaves a sidecar as it is: the compaction sealed it before.
pub open spec fn sealed_by(existing: Option<SidecarView>, compaction_id: u128) -> bool {
    existing matches Some(s) && s.seal matches Some(seal) && seal.compaction_id == compaction_id
}

/// That a sidecar is sealed by another compaction that may be alive.
pub open spec fn sealed_by_other(
    existing: Option<SidecarView>,
    compaction_id: u128,
    now: Moment,
    timeout: Span,
) -> bool {
    existing matches Some(s) && s.seal matches Some(seal) && seal.compaction_id != compaction_id
        && !stale(seal.sealed_at, now, timeout)
}

/// The sidecar with a seal: its bits stay, and one that is not there has none.
pub open spec fn sealed_sidecar(
    existing: Option<SidecarView>,
    compaction_id: u128,
    now: Moment,
) -> SidecarView {
    SidecarView {
        seal: Some(SealRecord { compaction_id, sealed_at: now }),
        bits: match existing {
            Some(s) => s.bits,
            None => Set::empty(),
        },
    }
}

/// What sealing a sidecar, as it was read, comes to. A seal of another
/// compaction is respected until it is stale, and then taken over.
pub fn seal(
    existing: Option<&TombstonesSidecar>,
    superfile_id: u128,
    compaction_id: u128,
    sealed_at: Moment,
    stale_timeout: Span,
) -> (r: SealPlan)
    ensures
        ({
            let e = match existing {
                Some(s) => Some(s@),
                None => None,
            };
            if sealed_by(e, compaction_id) {
                r is Keep
            } else if sealed_by_other(e, compaction_id, sealed_at, stale_timeout) {
                r == SealPlan::Refuse(
                    TombstonesAdminError::AlreadySealed {
                        superfile_id,
                        existing_compaction_id: (e->0.seal->0).compaction_id,
                    },
                )
            } else {
                r matches SealPlan::Write(s) && s@ == sealed_sidecar(e, compaction_id, sealed_at)
            }
        }),
{
    let record = SealRecord { compaction_id, sealed_at };
    match existing {
        None => SealPlan::Write(TombstonesSidecar { seal: Some(record), bitmap: no_bits() }),
        Some(s) => {
            match s.seal {
                Some(old) => {
                    if old.compaction_id == compaction_id {
                        return SealPlan::Keep;
                    }
                    if !is_seal_stale(old.sealed_at, sealed_at, stale_timeout) {
                        return SealPlan::Refuse(
                            TombstonesAdminError::AlreadySealed {
                                superfile_id,
                                existing_compaction_id: old.compaction_id,
                            },
                        );
                    }
                },
                None => {},
            }
            SealPlan::Write(
                TombstonesSidecar { seal: Some(record), bitmap: copy_bits(&s.bitmap) },
            )
        },
    }
}

/// What the writing of a seal came to.
pub fn finish_seal(superfile_id: u128, outcome: Result<String, WalStoreError>) -> (r: Result<
    String,
    TombstonesAdminError,
>)
    ensures
        match outcome {
            Ok(tag) => r == Ok::<String, TombstonesAdminError>(tag),
            Err(WalStoreError::CasFailed { .. }) => r == Err::<String, TombstonesAdminError>(
                TombstonesAdminError::CasLost { superfile_id },
            ),
            Err(e) => r == Err::<String, TombstonesAdminError>(TombstonesAdminError::WalStore(e)),
        },
{
    match outcome {
        Ok(tag) => Ok(tag),
        Err(WalStoreError::CasFailed { .. }) => Err(TombstonesAdminError::CasLost { superfile_id }),
        Err(e) => Err(TombstonesAdminError::WalStore(e)),
    }
}

/// The sidecar with these bits and without a seal.
pub open spec fn unsealed_sidecar(bits: Set<u32>) -> SidecarView {
    SidecarView { seal: None, bits }
}

/// The sidecar without its seal.
pub fn unseal(bitmap: roaring::RoaringBitmap) -> (r: TombstonesSidecar)
    ensures
        r@ == unsealed_sidecar(bits(bitmap)),
{
    TombstonesSidecar { seal: None, bitmap }
}

/// What the clearing of a seal came to. Where the sidecar is not the one that
/// was sealed, the seal is not ours to clear any more.
pub fn finish_unseal(outcome: Result<String, WalStoreError>) -> (r: Result<
    (),
    TombstonesAdminError,
>)
    ensures
        match outcome {
            Ok(_) => r is Ok,
            Err(WalStoreError::CasFailed { .. }) => r is Ok,
            Err(e) => r == Err::<(), TombstonesAdminError>(TombstonesAdminError::WalStore(e)),
        },
{
    match outcome {
        Ok(_) => Ok(()),
        Err(WalStoreError::CasFailed { .. }) => Ok(()),
        Err(e) => Err(TombstonesAdminError::WalStore(e)),
    }
}

// ---------------------------------------------------------------- live rows

/// The rows before `n` that have no tombstone, in ascending order.
pub open spec fn live(dead: Set<u32>, n: nat) -> Seq<u32>
    decreases n,
{
    if n == 0 {
        Seq::empty()
    } else {
        let row = (n - 1) as u32;
        if dead.contains(row) {
            live(dead, (n - 1) as nat)
        } else {
            live(dead, (n - 1) as nat).push(row)
        }
    }
}

/// The rows of a superfile that have no tombstone. Without a sidecar all have
/// none; a seal makes no difference.
pub fn live_rows(sidecar: Option<&TombstonesSidecar>, n_docs: u32) -> (r: Vec<u32>)
    ensures
        r@ == live(
            match sidecar {
                Some(s) => s@.bits,
                None => Set::empty(),
            },
            n_docs as nat,
        ),
{
    let ghost dead = match sidecar {
        Some(s) => s@.bits,
        None => Set::empty(),
    };
    let mut out: Vec<u32> = Vec::new();
    let mut row: u32 = 0;
    while row < n_docs
        invariant
            row <= n_docs,
            dead == (match sidecar {
                Some(s) => s@.bits,
                None => Set::empty(),
            }),
            out@ == live(dead, row as nat),
        decreases n_docs - row,
    {
        let is_dead = match sidecar {
            Some(s) => has_number(&s.bitmap, row),
            None => false,
        };
        if !is_dead {
            out.push(row);
        }
        row = row + 1;
    }
    out
}

// ---------------------------------------------------------------- laws

/// A row is live just where it has no tombstone.
pub proof fn live_is_the_complement(dead: Set<u32>, n: nat, row: u32)
    requires
        n <= 0x1_0000_0000,
    ensures
        live(dead, n).contains(row) <==> row < n && !dead.contains(row),
    decreases n,
{
    if n > 0 {
        let last = (n - 1) as u32;
        let before = live(dead, (n - 1) as nat);
        live_is_the_complement(dead, (n - 1) as nat, row);
        if !dead.contains(last) {
            let all = before.push(last);
            assert(all[before.len() as int] == last);
            if before.contains(row) {
                let i = choose|i: int| 0 <= i < before.len() && before[i] == row;
                assert(all[i] == row);
            }
            if all.contains(row) {
                let i = choose|i: int| 0 <= i < all.len() && all[i] == row;
                if i < before.len() {
                    assert(before[i] == row);
                }
            }
        }
    }
}

/// Sealing again after one's own seal is no more than to find it, and other
/// compactions are kept out as long as it is fresh. The tombstones stay.
pub proof fn seal_holds(
    existing: Option<SidecarView>,
    compaction_id: u128,
    other: u128,
    sealed_at: Moment,
    now: Moment,
    timeout: Span,
)
    requires
        other != compaction_id,
        !stale(sealed_at, now, timeout),
    ensures
        ({
            let s = Some(sealed_sidecar(existing, compaction_id, sealed_at));
            &&& sealed_by(s, compaction_id)
            &&& sealed_by_other(s, other, now, timeout)
            &&& existing matches Some(e) ==> s->0.bits == e.bits
        }),
{
}

/// A tombstone that was set before the seal keeps its row out of the merged
/// superfile.
pub proof fn sealed_tombstones_count(
    existing: SidecarView,
    compaction_id: u128,
    now: Moment,
    n: nat,
    row: u32,
)
    requires
        existing.bits.contains(row),
        n <= 0x1_0000_0000,
    ensures
        !live(sealed_sidecar(Some(existing), compaction_id, now).bits, n).contains(row),
{
    live_is_the_complement(existing.bits, n, row);
}

/// Unsealing undoes sealing: a sidecar that had no seal is as it was, and every
/// compaction can seal it again.
pub proof fn unsealing_undoes_sealing(
    existing: SidecarView,
    compaction_id: u128,
    other: u128,
    sealed_at: Moment,
    now: Moment,
    timeout: Span,
)
    requires
        existing.seal is None,
    ensures
        ({
            let sealed = sealed_sidecar(Some(existing), compaction_id, sealed_at);
            &&& unsealed_sidecar(sealed.bits) == existing
            &&& !sealed_by(Some(unsealed_sidecar(sealed.bits)), other)
            &&& !sealed_by_other(Some(unsealed_sidecar(sealed.bits)), other, now, timeout)
        }),
{
}

/// A seal that is stale keeps no compaction out, and the tombstones stay when it
/// is taken over.
pub proof fn stale_seal_is_taken_over(
    existing: SidecarView,
    old: SealRecord,
    compaction_id: u128,
    now: Moment,
    timeout: Span,
)
    requires
        existing.seal == Some(old),
        old.compaction_id != compaction_id,
        stale(old.sealed_at, now, timeout),
    ensures
        !sealed_by(Some(existing), compaction_id),
        !sealed_by_other(Some(existing), compaction_id, now, timeout),
        sealed_sidecar(Some(existing), compaction_id, now).bits == existing.bits,
{
}

/// That a moment lies in no leap second.
pub open spec fn ordinary(m: Moment) -> bool {
    m.nanos < 1_000_000_000
}

/// That a moment is not before another.
pub open spec fn not_before(m: Moment, other: Moment) -> bool {
    m.secs > other.secs || (m.secs == other.secs && m.nanos >= other.nanos)
}

/// Outside of leap seconds a seal is stale from the moment on that lies the
/// timeout after it, and not before.
pub proof fn seals_age_to_the_timeout(sealed_at: Moment, now: Moment, timeout: Span)
    requires
        ordinary(sealed_at),
        ordinary(now),
    ensures
        span_nanos(timeout) > 0 ==> (stale(sealed_at, now, timeout) <==> now.secs * 1_000_000_000
            + now.nanos >= sealed_at.secs * 1_000_000_000 + sealed_at.nanos + timeout.secs
            * 1_000_000_000 + timeout.nanos),
        timeout.secs == 0 && timeout.nanos == 0 ==> stale(sealed_at, now, timeout),
{
}

/// Staleness never ends: a seal that is stale is so at every later moment.
/// Inside a leap second the moments of that second alone are compared, and a
/// seal that was set in one is looked at again on the same day, or more than a
/// second later.
pub proof fn staleness_never_ends(sealed_at: Moment, now: Moment, later: Moment, timeout: Span)
    requires
        stale(sealed_at, now, timeout),
        not_before(later, now),
        (ordinary(now) && ordinary(later) && (ordinary(sealed_at) || later.secs - now.secs > 1
            || now.secs as int / 86_400 == later.secs as int / 86_400)) || (now.secs == later.secs
            && !ordinary(now)),
    ensures
        stale(sealed_at, later, timeout),
{
}

/// A longer timeout makes no seal stale that a shorter one does not.
pub proof fn longer_timeouts_keep_seals(sealed_at: Moment, now: Moment, timeout: Span, longer: Span)
    requires
        stale(sealed_at, now, longer),
        timeout.secs < longer.secs && timeout.nanos <= 1_000_000_000 || timeout.secs
            == longer.secs && timeout.nanos <= longer.nanos,
    ensures
        stale(sealed_at, now, timeout),
{
}

/// A leap second that a span of time lies across counts as a second: sealed in
/// it, a seal is as old at a later second of the day as one sealed a second
/// earlier in the same second of the clock.
pub proof fn leap_seconds_count(sealed_at: Moment, now: Moment)
    requires
        ordinary(now),
        1_000_000_000 <= sealed_at.nanos < 2_000_000_000,
        now.secs > sealed_at.secs,
    ensures
        now.secs as int / 86_400 == sealed_at.secs as int / 86_400 ==> elapsed(sealed_at, now)
            == elapsed(
            Moment { secs: sealed_at.secs, nanos: (sealed_at.nanos - 1_000_000_000) as u32 },
            now,
        ),
        elapsed(sealed_at, now) == -elapsed(now, sealed_at),
{
}

/// The rows of a superfile that are live are listed in ascending order.
pub proof fn live_rows_ascend(dead: Set<u32>, n: nat)
    requires
        n <= 0x1_0000_0000,
    ensures
        forall|i: int, j: int|
            0 <= i < j < live(dead, n).len() ==> #[trigger] live(dead, n)[i] < #[trigger] live(
                dead,
                n,
            )[j],
        forall|i: int| 0 <= i < live(dead, n).len() ==> #[trigger] live(dead, n)[i] < n,
    decreases n,
{
    if n > 0 {
        live_rows_ascend(dead, (n - 1) as nat);
        let (head, all) = (live(dead, (n - 1) as nat), live(dead, n));
        assert forall|i: int| 0 <= i < all.len() implies #[trigger] all[i] < n by {
            if i < head.len() {
                assert(all[i] == head[i]);
            }
        }
        assert forall|i: int, j: int| 0 <= i < j < all.len() implies #[trigger] all[i]
            < #[trigger] all[j] by {
            assert(all[i] == head[i]);
            if j < head.len() {
                assert(all[j] == head[j]);
            }
        }
    }
}

/// Who seals a sidecar is named in its seal, with the moment, and the tombstones
/// are those that were there.
pub proof fn seals_name_their_compaction(
    existing: Option<SidecarView>,
    compaction_id: u128,
    now: Moment,
)
    ensures
        ({
            let s = sealed_sidecar(existing, compaction_id, now);
            &&& s.seal matches Some(r) && r.compaction_id == compaction_id && r.sealed_at == now
            &&& existing matches Some(e) ==> s.bits == e.bits
            &&& existing is None ==> forall|row: u32| !s.bits.contains(row)
        }),
{
}

/// A sidecar without a seal keeps no compaction out, and neither does one that
/// is not there.
pub proof fn unsealed_sidecars_are_free(
    existing: Option<SidecarView>,
    compaction_id: u128,
    now: Moment,
    timeout: Span,
)
    requires
        existing matches Some(e) ==> e.seal is None,
    ensures
        !sealed_by(existing, compaction_id),
        !sealed_by_other(existing, compaction_id, now, timeout),
{
}

} // verus!
