//! Trying a commit again after another writer was faster.

use std::sync::Arc;
use vstd::arithmetic::power2::{lemma2_to64, lemma_pow2_unfold, pow2};
use vstd::prelude::*;

use crate::error::{joined, CommitError, StorageError};
use crate::ids::{id_text, write_id};
use crate::manifest::commit::PointerFile;
use crate::manifest::entry::SuperfileEntry;
use crate::manifest::list::{part_views, ManifestList, ManifestListEntryView};
use crate::manifest::part::{ManifestPart, PartId};
use crate::manifest::snapshot::{
    load_error_text, located, share_all, Manifest, ManifestLoadError, ManifestPartLoader,
    SuperfileList,
};
use crate::options::SupertableOptions;
use crate::share::share;
use crate::writer::plan::first_unloaded;

verus! {

// ---------------------------------------------------------------- waiting

/// Milliseconds before the second try.
pub const BACKOFF_BASE_MS: u64 = 10;

/// The longest wait, in milliseconds, before jitter.
pub const BACKOFF_CAP_MS: u64 = 1000;

/// The wait after a try, before jitter: it doubles with every try, up to the
/// cap.
pub open spec fn backoff_steps(attempt: nat) -> nat
    decreases attempt,
{
    if attempt == 0 {
        BACKOFF_BASE_MS as nat
    } else {
        let twice = 2 * backoff_steps((attempt - 1) as nat);
        if twice < BACKOFF_CAP_MS {
            twice
        } else {
            BACKOFF_CAP_MS as nat
        }
    }
}

/// The wait in milliseconds. The jitter, at most thirty parts in a hundred
/// either way, is taken from the nanoseconds of a clock and rounded towards
/// none.
pub open spec fn backoff_of(attempt: nat, nanos: nat) -> int {
    let base = backoff_steps(attempt) as int;
    let jitter = nanos % 61 - 30;
    if jitter >= 0 {
        base + base * jitter / 100
    } else {
        base - base * (-jitter) / 100
    }
}

proof fn lemma_backoff_settles(attempt: nat)
    requires
        attempt >= 7,
    ensures
        backoff_steps(attempt) == BACKOFF_CAP_MS,
    decreases attempt,
{
    if attempt == 7 {
        reveal_with_fuel(backoff_steps, 9);
    } else {
        lemma_backoff_settles((attempt - 1) as nat);
    }
}

/// A try waits no less than the base and no longer than the cap.
proof fn lemma_backoff_range(attempt: nat)
    ensures
        BACKOFF_BASE_MS <= backoff_steps(attempt) <= BACKOFF_CAP_MS,
    decreases attempt,
{
    if attempt > 0 {
        lemma_backoff_range((attempt - 1) as nat);
    }
}

/// The wait in milliseconds after the `attempt`-th try, counted from zero.
pub fn backoff_delay(attempt: u32, nanos: u64) -> (ms: u64)
    ensures
        ms == backoff_of(attempt as nat, nanos as nat),
{
    let mut base: u64 = BACKOFF_BASE_MS;
    let mut n: u32 = 0;
    while n < attempt && n < 7
        invariant
            n <= attempt,
            n <= 7,
            base == backoff_steps(n as nat),
            base <= BACKOFF_CAP_MS,
        decreases 7 - n,
    {
        let twice: u64 = base * 2;
        n = n + 1;
        base = if twice < BACKOFF_CAP_MS {
            twice
        } else {
            BACKOFF_CAP_MS
        };
    }
    proof {
        lemma_backoff_range(attempt as nat);
        if n < attempt {
            lemma_backoff_settles(attempt as nat);
            lemma_backoff_settles(7);
        }
    }
    let turn: u64 = nanos % 61;
    if turn >= 30 {
        let jitter: u64 = turn - 30;
        assert(base * jitter <= 1000 * 30) by (nonlinear_arith)
            requires
                base <= 1000,
                jitter <= 30,
        ;
        base + base * jitter / 100
    } else {
        let jitter: u64 = 30 - turn;
        assert(base * jitter <= base * 30) by (nonlinear_arith)
            requires
                jitter <= 30,
        ;
        base - base * jitter / 100
    }
}

/// No wait is shorter than seven tenths of the base or longer than thirteen
/// tenths of the cap.
pub proof fn backoff_is_bounded(attempt: nat, nanos: nat)
    ensures
        7 <= backoff_of(attempt, nanos) <= 1300,
{
    lemma_backoff_range(attempt);
    let base = backoff_steps(attempt) as int;
    let jitter = nanos % 61 - 30;
    if jitter >= 0 {
        assert(0 <= base * jitter <= 1000 * 30) by (nonlinear_arith)
            requires
                0 <= base <= 1000,
                0 <= jitter <= 30,
        ;
    } else {
        assert(0 <= base * (-jitter) <= base * 30) by (nonlinear_arith)
            requires
                0 <= base,
                0 <= -jitter <= 30,
        ;
    }
}

/// The longer a writer has tried, the longer it waits, but for the jitter.
pub proof fn backoff_grows(attempt: nat)
    ensures
        backoff_steps(attempt) <= backoff_steps(attempt + 1),
{
    lemma_backoff_range(attempt);
}

// ---------------------------------------------------------------- tries

/// What follows a try.
#[derive(Debug)]
pub enum AfterAttempt {
    /// The version is published.
    Published,
    /// See what the faster writer published, wait, and make this try.
    Retry(u32),
    /// The commit fails.
    Failed(CommitError),
}

/// The tries that a commit has.
pub open spec fn tries(max_commit_retries: u32) -> u32 {
    if max_commit_retries == 0 {
        1
    } else {
        max_commit_retries
    }
}

/// What follows the `attempt`-th try, counted from zero. After contention there
/// is another try as long as any is left; every other error is final.
pub fn after_attempt(attempt: u32, max_commit_retries: u32, outcome: Result<(), CommitError>) -> (r:
    AfterAttempt)
    requires
        attempt < tries(max_commit_retries),
    ensures
        match outcome {
            Ok(_) => r is Published,
            Err(e) => if e is WriteContentionExhausted && attempt + 1 < tries(
                max_commit_retries,
            ) {
                r == AfterAttempt::Retry((attempt + 1) as u32)
            } else {
                r == AfterAttempt::Failed(e)
            },
        },
{
    let max: u32 = if max_commit_retries == 0 {
        1
    } else {
        max_commit_retries
    };
    match outcome {
        Ok(()) => AfterAttempt::Published,
        Err(CommitError::WriteContentionExhausted) => {
            if attempt + 1 < max {
                AfterAttempt::Retry(attempt + 1)
            } else {
                AfterAttempt::Failed(CommitError::WriteContentionExhausted)
            }
        },
        Err(e) => AfterAttempt::Failed(e),
    }
}

// ---------------------------------------------------------------- refreshing

/// Whether there is a newer version to read.
pub fn is_stale(current: u64, pointer: Option<&PointerFile>) -> (r: bool)
    ensures
        r == (pointer matches Some(p) && p.manifest_id > current),
{
    match pointer {
        Some(p) => p.manifest_id > current,
        None => false,
    }
}

/// The text of an unreadable list.
pub open spec fn list_fault_text(detail: Seq<char>) -> Seq<char> {
    "manifest list decode during retry refresh: "@ + detail
}

/// The newer list, or why there is none. The error of a list that cannot be
/// decoded comes with its text.
pub fn finish_list_read(outcome: Result<Result<ManifestList, String>, StorageError>) -> (r: Result<
    ManifestList,
    CommitError,
>)
    ensures
        match outcome {
            Err(e) => r == Err::<ManifestList, CommitError>(CommitError::Storage(e)),
            Ok(Err(s)) => r matches Err(CommitError::PointerParse(t)) && t@ == list_fault_text(s@),
            Ok(Ok(list)) => r == Ok::<ManifestList, CommitError>(list),
        },
{
    match outcome {
        Err(e) => Err(CommitError::Storage(e)),
        Ok(Err(s)) => Err(
            CommitError::PointerParse(
                joined("manifest list decode during retry refresh: ", s.as_str()),
            ),
        ),
        Ok(Ok(list)) => Ok(list),
    }
}

/// That a part of the identity is at hand.
pub open spec fn at_hand(parts: Seq<Arc<ManifestPart>>, id: PartId) -> bool {
    exists|i: int| 0 <= i < parts.len() && (#[trigger] parts[i]).part_id == id
}

/// The place of the part, where it is at hand.
fn find_part(parts: &Vec<Arc<ManifestPart>>, id: PartId) -> (r: Option<usize>)
    ensures
        match r {
            Some(i) => i < parts@.len() && parts@[i as int].part_id == id && forall|k: int|
                0 <= k < i ==> (#[trigger] parts@[k]).part_id != id,
            None => !at_hand(parts@, id),
        },
{
    let mut i: usize = 0;
    while i < parts.len()
        invariant
            i <= parts@.len(),
            forall|k: int| 0 <= k < i ==> (#[trigger] parts@[k]).part_id != id,
        decreases parts@.len() - i,
    {
        if parts[i].part_id == id {
            return Some(i);
        }
        i = i + 1;
    }
    None
}

/// The parts of a list that are not at hand, in the order of the list.
pub open spec fn missing(
    entries: Seq<ManifestListEntryView>,
    parts: Seq<Arc<ManifestPart>>,
) -> Seq<PartId>
    decreases entries.len(),
{
    if entries.len() == 0 {
        Seq::empty()
    } else {
        let rest = missing(entries.drop_last(), parts);
        if at_hand(parts, entries.last().part_id) {
            rest
        } else {
            rest.push(entries.last().part_id)
        }
    }
}

/// The parts that must be loaded for a newer list. What is at hand is
/// inherited.
pub fn missing_parts(list: &ManifestList, parts: &Vec<Arc<ManifestPart>>) -> (r: Vec<PartId>)
    ensures
        r@ == missing(part_views(list.parts@), parts@),
{
    let ghost v = part_views(list.parts@);
    let mut r: Vec<PartId> = Vec::new();
    let mut i: usize = 0;
    proof {
        assert(v.take(0) =~= Seq::empty());
    }
    while i < list.parts.len()
        invariant
            i <= list.parts@.len(),
            v == part_views(list.parts@),
            r@ == missing(v.take(i as int), parts@),
        decreases list.parts@.len() - i,
    {
        proof {
            assert(v.take(i as int + 1).drop_last() =~= v.take(i as int));
            assert(v.take(i as int + 1).last() == list.parts@[i as int]@);
        }
        if find_part(parts, list.parts[i].part_id).is_none() {
            r.push(list.parts[i].part_id);
        }
        i = i + 1;
    }
    proof {
        assert(v.take(i as int) =~= v);
    }
    r
}

/// Why a newer version cannot be read.
pub open spec fn missing_text(id: PartId, e: ManifestLoadError) -> Seq<char> {
    "manifest part load during retry refresh: part_id="@ + id_text(id.0) + " err="@
        + load_error_text(e)
}

/// The loaded parts. The first that failed is the error.
pub fn finish_part_loads(
    ids: &Vec<PartId>,
    loads: Vec<Result<Arc<ManifestPart>, ManifestLoadError>>,
) -> (r: Result<Vec<Arc<ManifestPart>>, CommitError>)
    requires
        ids@.len() == loads@.len(),
    ensures
        match first_unloaded(loads@, 0) {
            Some(k) => r matches Err(CommitError::Encode(s)) && s@ == missing_text(
                ids@[k],
                loads@[k]->Err_0,
            ),
            None => r matches Ok(parts) && parts@.len() == loads@.len() && forall|k: int|
                0 <= k < loads@.len() ==> #[trigger] loads@[k] == Ok::<
                    Arc<ManifestPart>,
                    ManifestLoadError,
                >(parts@[k]),
        },
{
    let mut parts: Vec<Arc<ManifestPart>> = Vec::new();
    let mut k: usize = 0;
    while k < loads.len()
        invariant
            k <= loads@.len(),
            ids@.len() == loads@.len(),
            first_unloaded(loads@, 0) == first_unloaded(loads@, k as int),
            parts@.len() == k,
            forall|j: int|
                0 <= j < k ==> #[trigger] loads@[j] == Ok::<Arc<ManifestPart>, ManifestLoadError>(
                    parts@[j],
                ),
        decreases loads@.len() - k,
    {
        match &loads[k] {
            Ok(p) => {
                parts.push(share(p));
            },
            Err(e) => {
                let mut s = "manifest part load during retry refresh: part_id=".to_string();
                s.append(write_id(ids[k].0).as_str());
                s.append(" err=");
                s.append(e.message().as_str());
                return Err(CommitError::Encode(s));
            },
        }
        k = k + 1;
    }
    Ok(parts)
}

/// The superfiles of the part of an identity; none where it is not at hand.
pub open spec fn superfiles_of(parts: Seq<Arc<ManifestPart>>, id: PartId) -> Seq<
    Arc<SuperfileEntry>,
>
    decreases parts.len(),
{
    if parts.len() == 0 {
        Seq::empty()
    } else if parts[0].part_id == id {
        parts[0].superfiles@
    } else {
        superfiles_of(parts.skip(1), id)
    }
}

/// The superfiles of the parts of a list, in the order of the list.
pub open spec fn all_superfiles(
    entries: Seq<ManifestListEntryView>,
    parts: Seq<Arc<ManifestPart>>,
) -> Seq<Arc<SuperfileEntry>>
    decreases entries.len(),
{
    if entries.len() == 0 {
        Seq::empty()
    } else {
        all_superfiles(entries.drop_last(), parts) + superfiles_of(parts, entries.last().part_id)
    }
}

/// The superfiles of an identity are those of the first part that has it.
pub proof fn lemma_superfiles_at(parts: Seq<Arc<ManifestPart>>, id: PartId, i: int)
    requires
        0 <= i < parts.len(),
        parts[i].part_id == id,
        forall|k: int| 0 <= k < i ==> (#[trigger] parts[k]).part_id != id,
    ensures
        superfiles_of(parts, id) == parts[i].superfiles@,
    decreases i,
{
    if i > 0 {
        let rest = parts.skip(1);
        assert forall|k: int| 0 <= k < i - 1 implies (#[trigger] rest[k]).part_id != id by {
            assert(rest[k] == parts[k + 1]);
        }
        assert(rest[i - 1] == parts[i]);
        lemma_superfiles_at(rest, id, i - 1);
    }
}

/// The newer version: its superfiles are those of its parts, all of which are
/// at hand.
pub fn refreshed_manifest(
    options: Arc<SupertableOptions>,
    manifest_id: u64,
    list: Arc<ManifestList>,
    parts: &Vec<Arc<ManifestPart>>,
) -> (r: Manifest)
    requires
        forall|k: int|
            0 <= k < list.parts@.len() ==> at_hand(parts@, (#[trigger] list.parts@[k]).part_id),
    ensures
        r.superfile_list.manifest_id == manifest_id,
        r.superfile_list.options == options,
        r.superfile_list.superfiles@ == all_superfiles(part_views(list.parts@), parts@),
        r.list == Some(list),
        r.loader matches Some(l) && forall|id: PartId|
            #[trigger] l.knows(id) == located(part_views(list.parts@), id),
{
    let ghost v = part_views(list.parts@);
    let mut superfiles: Vec<Arc<SuperfileEntry>> = Vec::new();
    let mut i: usize = 0;
    proof {
        assert(v.take(0) =~= Seq::empty());
    }
    while i < list.parts.len()
        invariant
            i <= list.parts@.len(),
            v == part_views(list.parts@),
            forall|k: int|
                0 <= k < list.parts@.len() ==> at_hand(
                    parts@,
                    (#[trigger] list.parts@[k]).part_id,
                ),
            superfiles@ == all_superfiles(v.take(i as int), parts@),
        decreases list.parts@.len() - i,
    {
        proof {
            assert(v.take(i as int + 1).drop_last() =~= v.take(i as int));
            assert(v.take(i as int + 1).last() == list.parts@[i as int]@);
        }
        match find_part(parts, list.parts[i].part_id) {
            Some(p) => {
                proof {
                    lemma_superfiles_at(parts@, list.parts@[i as int].part_id, p as int);
                }
                let mut more = share_all(&parts[p].superfiles);
                superfiles.append(&mut more);
            },
            None => {
                assert(false);
            },
        }
        i = i + 1;
    }
    proof {
        assert(v.take(i as int) =~= v);
    }
    let loader = ManifestPartLoader::new(&list);
    Manifest {
        superfile_list: SuperfileList { manifest_id, options, superfiles },
        list: Some(list),
        loader: Some(Arc::new(loader)),
    }
}

/// The version that a commit published: the superfiles of before and the new
/// ones, with the list that was written.
pub fn published_manifest(superfile_list: SuperfileList, list: Arc<ManifestList>) -> (r: Manifest)
    ensures
        r.superfile_list == superfile_list,
        r.list == Some(list),
        r.loader matches Some(l) && forall|id: PartId|
            #[trigger] l.knows(id) == located(part_views(list.parts@), id),
{
    let loader = ManifestPartLoader::new(&list);
    Manifest { superfile_list, list: Some(list), loader: Some(Arc::new(loader)) }
}

// ---------------------------------------------------------------- laws

/// What is at hand and what is missing are together all parts of the list.
pub proof fn missing_completes(
    entries: Seq<ManifestListEntryView>,
    parts: Seq<Arc<ManifestPart>>,
    loaded: Seq<Arc<ManifestPart>>,
    k: int,
)
    requires
        0 <= k < entries.len(),
        loaded.len() == missing(entries, parts).len(),
        forall|i: int|
            0 <= i < loaded.len() ==> (#[trigger] loaded[i]).part_id == missing(entries, parts)[i],
    ensures
        at_hand(parts + loaded, entries[k].part_id),
    decreases entries.len(),
{
    let rest = entries.drop_last();
    let last = entries.last().part_id;
    let all = parts + loaded;
    if k < entries.len() - 1 {
        let fewer = loaded.take(missing(rest, parts).len() as int);
        assert forall|i: int| 0 <= i < fewer.len() implies (#[trigger] fewer[i]).part_id
            == missing(rest, parts)[i] by {
            assert(fewer[i] == loaded[i]);
        }
        missing_completes(rest, parts, fewer, k);
        let i = choose|i: int|
            0 <= i < (parts + fewer).len() && (#[trigger] (parts + fewer)[i]).part_id
                == entries[k].part_id;
        assert(all[i] == (parts + fewer)[i]);
    } else if at_hand(parts, last) {
        let i = choose|i: int| 0 <= i < parts.len() && (#[trigger] parts[i]).part_id == last;
        assert(all[i].part_id == last);
    } else {
        let i = loaded.len() - 1;
        assert(loaded[i].part_id == last);
        assert(all[parts.len() + i].part_id == last);
    }
}

/// Before jitter a wait is ten milliseconds times two to the tries made, and a
/// second at most.
pub proof fn backoff_doubles_up_to_a_second(attempt: nat)
    ensures
        backoff_steps(attempt) == if 10 * pow2(attempt) < 1000 {
            10 * pow2(attempt)
        } else {
            1000
        },
    decreases attempt,
{
    lemma2_to64();
    if attempt > 0 {
        backoff_doubles_up_to_a_second((attempt - 1) as nat);
        lemma_pow2_unfold(attempt);
    }
}

/// Jitter moves a wait by three tenths at most, either way; the clock decides
/// how far, and a turn in the middle not at all.
pub proof fn jitter_is_thirty_parts_in_a_hundred(attempt: nat, nanos: nat, other: nat)
    ensures
        ({
            let base = backoff_steps(attempt) as int;
            &&& 100 * (backoff_of(attempt, nanos) - base) <= 30 * base
            &&& 100 * (base - backoff_of(attempt, nanos)) <= 30 * base
            &&& nanos % 61 <= other % 61 ==> backoff_of(attempt, nanos) <= backoff_of(
                attempt,
                other,
            )
            &&& nanos % 61 == 30 ==> backoff_of(attempt, nanos) == base
            &&& nanos % 61 == 0 ==> backoff_of(attempt, nanos) == base - base * 30 / 100
            &&& nanos % 61 == 60 ==> backoff_of(attempt, nanos) == base + base * 30 / 100
        }),
{
    lemma_backoff_range(attempt);
    let base = backoff_steps(attempt) as int;
    let (a, b) = (nanos % 61 - 30, other % 61 - 30);
    lemma_share(base, if a >= 0 { a } else { -a }, 30);
    assert(base * 0 == 0 && base * 30 == 30 * base);
    if a <= b {
        if a >= 0 {
            lemma_share(base, a, b);
        } else if b < 0 {
            lemma_share(base, -b, -a);
        } else {
            lemma_share(base, -a, 30);
            lemma_share(base, b, 30);
        }
    }
}

proof fn lemma_share(base: int, x: int, y: int)
    requires
        0 <= base,
        0 <= x <= y,
    ensures
        0 <= base * x / 100 <= base * y / 100,
        100 * (base * x / 100) <= base * y,
{
    assert(0 <= base * x <= base * y) by (nonlinear_arith)
        requires
            0 <= base,
            0 <= x <= y,
    ;
}

/// Just the parts of a list that are not at hand are loaded, in the order of the
/// list.
pub proof fn only_missing_parts_are_loaded(
    entries: Seq<ManifestListEntryView>,
    parts: Seq<Arc<ManifestPart>>,
)
    ensures
        missing(entries, parts) == entries.filter(
            |e: ManifestListEntryView| !at_hand(parts, e.part_id),
        ).map_values(|e: ManifestListEntryView| e.part_id),
    decreases entries.len(),
{
    reveal(Seq::filter);
    let id = |e: ManifestListEntryView| e.part_id;
    let keep = |e: ManifestListEntryView| !at_hand(parts, e.part_id);
    if entries.len() > 0 {
        only_missing_parts_are_loaded(entries.drop_last(), parts);
        let head = entries.drop_last().filter(keep);
        if keep(entries.last()) {
            assert(head.push(entries.last()).map_values(id) =~= head.map_values(id).push(
                entries.last().part_id,
            ));
        }
    }
    assert(missing(entries, parts) =~= entries.filter(keep).map_values(id));
}

/// How many superfiles the first `n` parts of a list hold.
pub open spec fn superfiles_before(
    entries: Seq<ManifestListEntryView>,
    parts: Seq<Arc<ManifestPart>>,
    n: int,
) -> nat
    decreases n,
{
    if n <= 0 {
        0
    } else {
        superfiles_before(entries, parts, n - 1) + superfiles_of(
            parts,
            entries[n - 1].part_id,
        ).len()
    }
}

proof fn lemma_superfiles_before(
    a: Seq<ManifestListEntryView>,
    b: Seq<ManifestListEntryView>,
    parts: Seq<Arc<ManifestPart>>,
    n: int,
)
    requires
        n <= a.len(),
        n <= b.len(),
        forall|i: int| 0 <= i < n ==> a[i] == b[i],
    ensures
        superfiles_before(a, parts, n) == superfiles_before(b, parts, n),
    decreases n,
{
    if n > 0 {
        lemma_superfiles_before(a, b, parts, n - 1);
    }
}

/// A newer version has the superfiles of all of its parts, in the order of the
/// list, and no others.
pub proof fn newer_versions_hold_their_parts(
    entries: Seq<ManifestListEntryView>,
    parts: Seq<Arc<ManifestPart>>,
    k: int,
    i: int,
)
    requires
        0 <= k < entries.len(),
        0 <= i < superfiles_of(parts, entries[k].part_id).len(),
    ensures
        superfiles_before(entries, parts, k) + i < all_superfiles(entries, parts).len(),
        all_superfiles(entries, parts)[superfiles_before(entries, parts, k) + i] == superfiles_of(
            parts,
            entries[k].part_id,
        )[i],
        all_superfiles(entries, parts).len() == superfiles_before(
            entries,
            parts,
            entries.len() as int,
        ),
    decreases entries.len(),
{
    let rest = entries.drop_last();
    lemma_superfiles_before(entries, rest, parts, k);
    lemma_superfiles_counted(entries, parts);
    if k < rest.len() {
        newer_versions_hold_their_parts(rest, parts, k, i);
    } else {
        lemma_superfiles_counted(rest, parts);
    }
}

proof fn lemma_superfiles_counted(
    entries: Seq<ManifestListEntryView>,
    parts: Seq<Arc<ManifestPart>>,
)
    ensures
        all_superfiles(entries, parts).len() == superfiles_before(
            entries,
            parts,
            entries.len() as int,
        ),
    decreases entries.len(),
{
    if entries.len() > 0 {
        lemma_superfiles_counted(entries.drop_last(), parts);
        lemma_superfiles_before(entries, entries.drop_last(), parts, entries.len() - 1);
    }
}

/// A commit makes at least one try, and as many as it was given otherwise.
pub proof fn commits_try_at_least_once(max_commit_retries: u32)
    ensures
        tries(max_commit_retries) >= 1,
        max_commit_retries >= 1 ==> tries(max_commit_retries) == max_commit_retries,
        max_commit_retries == 0 ==> tries(max_commit_retries) == tries(1),
{
}

} // verus!
