use std::collections::HashMap;

use roaring::RoaringBitmap;
use supertable::wal::tombstones_admin::{
    finish_seal, finish_unseal, is_seal_stale, live_rows, seal, unseal, Moment, SealPlan,
    SealRecord, Span, TombstonesAdminError, TombstonesSidecar, WalStoreError,
};

const TIMEOUT: Span = Span { secs: 300, nanos: 0 };

const NOW: Moment = Moment { secs: 1_715_000_000, nanos: 5 };

/// A moment that lies a second more than the timeout before now.
const OLD: Moment = Moment { secs: 1_715_000_000 - 301, nanos: 5 };

/// Sidecars with their tags; a write asks for the tag that was read.
struct Store {
    sidecars: HashMap<u128, (TombstonesSidecar, u64)>,
    tags: u64,
}

fn copied(s: &TombstonesSidecar) -> TombstonesSidecar {
    TombstonesSidecar { seal: s.seal, bitmap: s.bitmap.clone() }
}

impl Store {
    fn new() -> Self {
        Store { sidecars: HashMap::new(), tags: 0 }
    }

    fn get(&self, superfile: u128) -> Option<(TombstonesSidecar, String)> {
        self.sidecars.get(&superfile).map(|(s, t)| (copied(s), t.to_string()))
    }

    fn put(
        &mut self,
        superfile: u128,
        tag: Option<&str>,
        sidecar: &TombstonesSidecar,
    ) -> Result<String, WalStoreError> {
        let current = self.sidecars.get(&superfile).map(|(_, t)| t.to_string());
        if current.as_deref() != tag {
            return Err(WalStoreError::CasFailed { detail: "moved on".to_string() });
        }
        self.tags += 1;
        self.sidecars.insert(superfile, (copied(sidecar), self.tags));
        Ok(self.tags.to_string())
    }

    fn seal(
        &mut self,
        superfile: u128,
        compaction: u128,
        at: Moment,
    ) -> Result<(TombstonesSidecar, String), TombstonesAdminError> {
        let existing = self.get(superfile);
        let plan = seal(existing.as_ref().map(|(s, _)| s), superfile, compaction, at, TIMEOUT);
        match plan {
            SealPlan::Keep => Ok(existing.expect("it was read")),
            SealPlan::Refuse(e) => Err(e),
            SealPlan::Write(s) => {
                let tag = existing.as_ref().map(|(_, t)| t.as_str());
                let outcome = self.put(superfile, tag, &s);
                finish_seal(superfile, outcome).map(|t| (s, t))
            }
        }
    }

    fn unseal(
        &mut self,
        superfile: u128,
        bitmap: RoaringBitmap,
        tag: &str,
    ) -> Result<(), TombstonesAdminError> {
        let cleared = unseal(bitmap);
        let outcome = self.put(superfile, Some(tag), &cleared);
        finish_unseal(outcome)
    }

    fn live_rows(&self, superfile: u128, n: u32) -> Vec<u32> {
        live_rows(self.get(superfile).as_ref().map(|(s, _)| s), n)
    }
}

fn bits(rows: &[u32]) -> RoaringBitmap {
    rows.iter().copied().collect()
}

fn unsealed(rows: &[u32]) -> TombstonesSidecar {
    TombstonesSidecar { seal: None, bitmap: bits(rows) }
}

#[test]
fn seal_on_absent_sidecar_creates_sealed_empty() {
    let mut ws = Store::new();
    let (sealed, _) = ws.seal(0x100, 0xC0DE, NOW).expect("seal");
    assert_eq!(sealed.seal.expect("set").compaction_id, 0xC0DE);
    assert!(sealed.bitmap.is_empty());
    let (post, _) = ws.get(0x100).expect("present");
    assert_eq!(post.seal.expect("set").compaction_id, 0xC0DE);
}

#[test]
fn seal_preserves_existing_bitmap() {
    let mut ws = Store::new();
    ws.put(0x200, None, &unsealed(&[1, 5, 7])).expect("seed");
    let (sealed, _) = ws.seal(0x200, 0xABCD, NOW).expect("seal");
    assert_eq!(sealed.bitmap, bits(&[1, 5, 7]), "seal must preserve the bitmap");
    assert_eq!(sealed.seal.expect("set").compaction_id, 0xABCD);
}

#[test]
fn seal_is_idempotent_on_same_compaction_id() {
    let mut ws = Store::new();
    let (first, tag) = ws.seal(0x300, 0xDEAD, NOW).expect("seal-1");
    let (again, same_tag) = ws.seal(0x300, 0xDEAD, NOW).expect("seal-2");
    assert_eq!(
        first.seal.expect("set").compaction_id,
        again.seal.expect("set").compaction_id
    );
    assert_eq!(first.bitmap, again.bitmap);
    assert_eq!(tag, same_tag);
}

#[test]
fn seal_on_different_compaction_id_surfaces_already_sealed() {
    let mut ws = Store::new();
    ws.seal(0x400, 0x1111, NOW).expect("seal-a");
    let err = ws.seal(0x400, 0x2222, NOW).expect_err("must error");
    assert!(matches!(
        err,
        TombstonesAdminError::AlreadySealed { existing_compaction_id: 0x1111, .. }
    ));
}

#[test]
fn seal_steals_a_stale_seal_from_a_different_compaction() {
    let mut ws = Store::new();
    ws.seal(0x450, 0x1111, OLD).expect("seal-a");
    let (stolen, _) = ws.seal(0x450, 0x2222, NOW).expect("seal-b should steal the stale seal");
    assert_eq!(stolen.seal.expect("set").compaction_id, 0x2222);
}

#[test]
fn seal_does_not_steal_a_fresh_seal() {
    let mut ws = Store::new();
    ws.seal(0x460, 0x1111, NOW).expect("seal-a");
    let err = ws.seal(0x460, 0x2222, NOW).expect_err("must not steal a fresh seal");
    assert!(matches!(err, TombstonesAdminError::AlreadySealed { .. }));
}

#[test]
fn live_rows_absent_sidecar_returns_full_range() {
    assert_eq!(Store::new().live_rows(0x500, 5), vec![0u32, 1, 2, 3, 4]);
}

#[test]
fn live_rows_excludes_tombstoned_bits() {
    let mut ws = Store::new();
    ws.put(0x600, None, &unsealed(&[1, 3])).expect("seed");
    assert_eq!(ws.live_rows(0x600, 5), vec![0u32, 2, 4]);
}

#[test]
fn live_rows_works_on_sealed_sidecar() {
    let mut ws = Store::new();
    ws.put(0x700, None, &unsealed(&[2])).expect("seed");
    ws.seal(0x700, 0xC0DEC0DE, NOW).expect("seal");
    assert_eq!(ws.live_rows(0x700, 4), vec![0u32, 1, 3]);
}

#[test]
fn race_writer_then_seal_landed_tombstone_visible_to_compactor() {
    let mut ws = Store::new();
    ws.put(0x800, None, &unsealed(&[3])).expect("writer wrote");
    ws.seal(0x800, 0xC0DEFACE, NOW).expect("seal");
    assert_eq!(ws.live_rows(0x800, 5), vec![0u32, 1, 2, 4]);
}

#[test]
fn unseal_clears_our_own_seal() {
    let mut ws = Store::new();
    let (sealed, tag) = ws.seal(0x900, 0xAAAA, NOW).expect("seal");
    ws.unseal(0x900, sealed.bitmap, &tag).expect("unseal");
    let (after, _) = ws.get(0x900).expect("present");
    assert!(after.seal.is_none());
}

#[test]
fn a_sidecar_is_as_before_once_unsealed() {
    let mut ws = Store::new();
    ws.put(0x910, None, &unsealed(&[2, 3])).expect("seed");
    let (sealed, tag) = ws.seal(0x910, 0xAAAA, NOW).expect("seal");
    ws.unseal(0x910, sealed.bitmap, &tag).expect("unseal");
    let (after, _) = ws.get(0x910).expect("present");
    assert!(after.seal.is_none());
    assert_eq!(after.bitmap, bits(&[2, 3]));
    let (again, _) = ws.seal(0x910, 0xBBBB, NOW).expect("another compaction seals");
    assert_eq!(again.seal.expect("set").compaction_id, 0xBBBB);
}

#[test]
fn unseal_no_ops_when_the_seal_has_since_changed() {
    let mut ws = Store::new();
    let (sealed_a, tag_a) = ws.seal(0x901, 0xAAAA, NOW).expect("seal-a");
    ws.put(
        0x901,
        Some(&tag_a),
        &TombstonesSidecar {
            seal: Some(SealRecord { compaction_id: 0xAAAA, sealed_at: OLD }),
            bitmap: sealed_a.bitmap.clone(),
        },
    )
    .expect("backdate seal-a");
    ws.seal(0x901, 0xBBBB, NOW).expect("seal-b steals the now-stale seal");
    ws.unseal(0x901, sealed_a.bitmap, &tag_a).expect("unseal must no-op, not error");
    let (after, _) = ws.get(0x901).expect("present");
    assert_eq!(after.seal.expect("still sealed").compaction_id, 0xBBBB);
}

#[test]
fn a_seal_is_stale_from_the_timeout_on() {
    let at = |secs: i64, nanos: u32| Moment { secs, nanos };
    assert!(is_seal_stale(at(100, 0), at(400, 0), TIMEOUT));
    assert!(!is_seal_stale(at(100, 1), at(400, 0), TIMEOUT));
    assert!(!is_seal_stale(at(500, 0), at(400, 0), TIMEOUT), "a seal from the future is fresh");
    assert!(is_seal_stale(at(500, 0), at(400, 0), Span { secs: 0, nanos: 0 }));
    assert!(is_seal_stale(at(-10, 0), at(300, 0), TIMEOUT));
}

#[test]
fn a_leap_second_is_counted() {
    let day: i64 = 86_400 * 19_000;
    let leap = Moment { secs: day + 3_599, nanos: 1_500_000_000 };
    let later = Moment { secs: day + 3_600, nanos: 500_000_000 };
    let span = |ms: u32| Span { secs: 0, nanos: ms * 1_000_000 };
    assert!(is_seal_stale(leap, later, span(999)));
    assert!(is_seal_stale(leap, later, Span { secs: 1, nanos: 0 }));
    assert!(!is_seal_stale(leap, later, Span { secs: 1, nanos: 1 }));
    assert!(!is_seal_stale(later, leap, span(1)), "a seal from the future");
}

#[test]
fn lost_races_and_other_faults_are_told_apart() {
    let lost = WalStoreError::CasFailed { detail: "x".to_string() };
    let e = finish_seal(7, Err(lost)).expect_err("lost");
    assert!(matches!(e, TombstonesAdminError::CasLost { superfile_id: 7 }));
    assert_eq!(
        e.message(),
        "CAS race lost while sealing sidecar for 00000000-0000-0000-0000-000000000007"
    );
    let e = finish_seal(7, Err(WalStoreError::Failed("disk".to_string()))).expect_err("fault");
    assert_eq!(e.message(), "wal store error: disk");
    let e = finish_unseal(Err(WalStoreError::Failed("disk".to_string()))).expect_err("fault");
    assert!(matches!(e, TombstonesAdminError::WalStore(_)));
    let e = TombstonesAdminError::AlreadySealed { superfile_id: 1, existing_compaction_id: 2 };
    assert_eq!(
        e.message(),
        "tombstone sidecar for 00000000-0000-0000-0000-000000000001 is already sealed \
         (compaction_id=00000000-0000-0000-0000-000000000002)"
    );
}
