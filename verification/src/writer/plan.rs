//! Which parts a commit writes and which it leaves alone.

use std::sync::Arc;
use vstd::prelude::*;

use crate::error::CommitError;
use crate::ids::{id_text, write_id};
use crate::lex::{bytes_copy, bytes_eq};
use crate::manifest::entry::{SuperfileEntry, SuperfileEntryView};
use crate::manifest::list::{
    part_views, ManifestListEntry, ManifestListEntryView, PartitionStrategy, PartitionStrategyView,
};
use crate::manifest::part::{entry_views, ManifestPart};
use crate::manifest::partition::{
    key_parsed, stored_form, stored_forms_tell_partitions_apart, stored_key_form,
};
use crate::manifest::snapshot::{load_error_text, share_all, ManifestLoadError};
use crate::writer::groups::{
    group_views, grouped, has_group, keys_ascend, occurrences, Group, GroupView,
};

verus! {

// ---------------------------------------------------------------- rules

/// The parts of a list under the stored forms of their keys.
pub open spec fn keyed(
    strategy: PartitionStrategyView,
    old: Seq<ManifestListEntryView>,
) -> Seq<ManifestListEntryView> {
    Seq::new(
        old.len(),
        |i: int|
            ManifestListEntryView {
                partition_key: stored_form(strategy, old[i].partition_key),
                ..old[i]
            },
    )
}

/// The new superfiles of a partition, where there are any.
pub open spec fn group_of(groups: Seq<GroupView>, key: Seq<u8>) -> Option<Seq<SuperfileEntryView>>
    decreases groups.len(),
{
    if groups.len() == 0 {
        None
    } else if groups.last().key == key {
        Some(groups.last().superfiles)
    } else {
        group_of(groups.drop_last(), key)
    }
}

/// That the part is the last one of its partition.
pub open spec fn latest(old: Seq<ManifestListEntryView>, i: int) -> bool {
    forall|j: int|
        i < j < old.len() ==> (#[trigger] old[j]).partition_key != old[i].partition_key
}

/// That the part is the one that takes the new superfiles of its partition.
pub open spec fn receives(
    old: Seq<ManifestListEntryView>,
    groups: Seq<GroupView>,
    i: int,
) -> bool {
    latest(old, i) && group_of(groups, old[i].partition_key) is Some
}

/// Which of the first `n` parts take new superfiles.
pub open spec fn receivers(
    old: Seq<ManifestListEntryView>,
    groups: Seq<GroupView>,
    n: int,
) -> Seq<int>
    decreases n,
{
    if n <= 0 {
        Seq::empty()
    } else if receives(old, groups, n - 1) {
        receivers(old, groups, n - 1).push(n - 1)
    } else {
        receivers(old, groups, n - 1)
    }
}

/// That the list has a part of the partition.
pub open spec fn known(old: Seq<ManifestListEntryView>, key: Seq<u8>) -> bool {
    exists|i: int| 0 <= i < old.len() && (#[trigger] old[i]).partition_key == key
}

/// One entry of the next list.
#[derive(Debug)]
pub enum Step {
    /// The entry of the old list, as it is.
    Keep(usize),
    /// A new part with these superfiles.
    Build { key: Vec<u8>, superfiles: Vec<Arc<SuperfileEntry>> },
}

pub enum StepView {
    Keep(int),
    Build { key: Seq<u8>, superfiles: Seq<SuperfileEntryView> },
}

impl View for Step {
    type V = StepView;

    open spec fn view(&self) -> StepView {
        match *self {
            Step::Keep(i) => StepView::Keep(i as int),
            Step::Build { key, superfiles } => StepView::Build {
                key: key@,
                superfiles: entry_views(superfiles@),
            },
        }
    }
}

/// The steps that a list holds.
pub open spec fn step_views(s: Seq<Step>) -> Seq<StepView> {
    Seq::new(s.len(), |i: int| s[i]@)
}

/// That the steps keep none but the first `n` entries.
pub open spec fn keeps_within(steps: Seq<Step>, n: nat) -> bool {
    forall|k: int|
        0 <= k < steps.len() ==> (#[trigger] steps[k] matches Step::Keep(i) ==> i < n)
}

/// What becomes of the `i`-th part. One that takes new superfiles is built
/// anew with them; where it would grow beyond `target` superfiles, or takes
/// `threshold` compressed bytes already, it stays, and the new
/// superfiles make a part of their own. `had` is what the receivers hold.
pub open spec fn steps_at(
    old: Seq<ManifestListEntryView>,
    groups: Seq<GroupView>,
    had: Seq<Seq<SuperfileEntryView>>,
    target: u64,
    threshold: u64,
    i: int,
) -> Seq<StepView> {
    if receives(old, groups, i) {
        let key = old[i].partition_key;
        let new = group_of(groups, key)->0;
        let now = had[receivers(old, groups, i).len() as int];
        if now.len() + new.len() > target || old[i].size_bytes_compressed >= threshold {
            seq![StepView::Keep(i), StepView::Build { key, superfiles: new }]
        } else {
            seq![StepView::Build { key, superfiles: now + new }]
        }
    } else {
        seq![StepView::Keep(i)]
    }
}

/// What becomes of the first `n` parts.
pub open spec fn walked(
    old: Seq<ManifestListEntryView>,
    groups: Seq<GroupView>,
    had: Seq<Seq<SuperfileEntryView>>,
    target: u64,
    threshold: u64,
    n: int,
) -> Seq<StepView>
    decreases n,
{
    if n <= 0 {
        Seq::empty()
    } else {
        walked(old, groups, had, target, threshold, n - 1) + steps_at(old, groups, had, target, threshold, n - 1)
    }
}

/// The parts of partitions that are new to the list.
pub open spec fn cold(old: Seq<ManifestListEntryView>, groups: Seq<GroupView>) -> Seq<StepView>
    decreases groups.len(),
{
    if groups.len() == 0 {
        Seq::empty()
    } else {
        let g = groups.last();
        if known(old, g.key) {
            cold(old, groups.drop_last())
        } else {
            cold(old, groups.drop_last()).push(
                StepView::Build { key: g.key, superfiles: g.superfiles },
            )
        }
    }
}

/// The next list: the old parts in their order, then the new partitions.
pub open spec fn planned(
    old: Seq<ManifestListEntryView>,
    groups: Seq<GroupView>,
    had: Seq<Seq<SuperfileEntryView>>,
    target: u64,
    threshold: u64,
) -> Seq<StepView> {
    walked(old, groups, had, target, threshold, old.len() as int) + cold(old, groups)
}

// ---------------------------------------------------------------- planning

proof fn lemma_group_of(groups: Seq<GroupView>, key: Seq<u8>)
    ensures
        group_of(groups, key) is Some <==> has_group(groups, key),
    decreases groups.len(),
{
    if groups.len() > 0 {
        let rest = groups.drop_last();
        lemma_group_of(rest, key);
        if groups.last().key == key {
            assert(groups[groups.len() - 1].key == key);
        } else {
            if has_group(rest, key) {
                let i = choose|i: int| 0 <= i < rest.len() && (#[trigger] rest[i]).key == key;
                assert(groups[i].key == key);
            }
            if has_group(groups, key) {
                let i = choose|i: int| 0 <= i < groups.len() && (#[trigger] groups[i]).key == key;
                assert(rest[i].key == key);
            }
        }
    }
}

/// The place of the partition's group.
fn find_group(groups: &[Group], key: &[u8]) -> (r: Option<usize>)
    ensures
        match r {
            Some(i) => i < groups@.len() && group_of(group_views(groups@), key@) == Some(
                entry_views(groups@[i as int].superfiles@),
            ),
            None => group_of(group_views(groups@), key@) is None,
        },
{
    let ghost g = group_views(groups@);
    let mut i: usize = groups.len();
    proof {
        assert(g.take(i as int) =~= g);
    }
    while i > 0
        invariant
            i <= groups@.len(),
            g == group_views(groups@),
            group_of(g, key@) == group_of(g.take(i as int), key@),
        decreases i,
    {
        proof {
            assert(g.take(i as int).drop_last() =~= g.take(i as int - 1));
            assert(g.take(i as int).last() == groups@[i as int - 1]@);
        }
        i = i - 1;
        if bytes_eq(groups[i].key.as_slice(), key) {
            return Some(i);
        }
    }
    None
}

/// That the bytes are the keys of the parts.
spec fn are_keys(keys: Seq<Vec<u8>>, old: Seq<ManifestListEntryView>) -> bool {
    &&& keys.len() == old.len()
    &&& forall|i: int| 0 <= i < keys.len() ==> (#[trigger] keys[i])@ == old[i].partition_key
}

fn keys_of(strategy: &PartitionStrategy, old: &[ManifestListEntry]) -> (r: Vec<Vec<u8>>)
    ensures
        are_keys(r@, keyed(strategy@, part_views(old@))),
{
    let mut r: Vec<Vec<u8>> = Vec::new();
    let mut i: usize = 0;
    while i < old.len()
        invariant
            i <= old@.len(),
            r@.len() == i,
            forall|k: int|
                0 <= k < i ==> (#[trigger] r@[k])@ == stored_form(
                    strategy@,
                    part_views(old@)[k].partition_key,
                ),
        decreases old@.len() - i,
    {
        r.push(stored_key_form(strategy, old[i].partition_key.as_slice()));
        i = i + 1;
    }
    r
}

fn is_latest(
    keys: &Vec<Vec<u8>>,
    i: usize,
    Ghost(v): Ghost<Seq<ManifestListEntryView>>,
) -> (r: bool)
    requires
        i < keys@.len(),
        are_keys(keys@, v),
    ensures
        r == latest(v, i as int),
{
    let mut j: usize = keys.len();
    while j > i + 1
        invariant
            are_keys(keys@, v),
            i < keys@.len(),
            i + 1 <= j <= keys@.len(),
            forall|k: int|
                j <= k < v.len() ==> (#[trigger] v[k]).partition_key != v[i as int].partition_key,
        decreases j,
    {
        j = j - 1;
        assert(keys@[j as int]@ == v[j as int].partition_key);
        assert(keys@[i as int]@ == v[i as int].partition_key);
        if bytes_eq(keys[j].as_slice(), keys[i].as_slice()) {
            return false;
        }
    }
    true
}

fn is_known(
    keys: &Vec<Vec<u8>>,
    key: &[u8],
    Ghost(v): Ghost<Seq<ManifestListEntryView>>,
) -> (r: bool)
    requires
        are_keys(keys@, v),
    ensures
        r == known(v, key@),
{
    let mut i: usize = 0;
    while i < keys.len()
        invariant
            are_keys(keys@, v),
            i <= keys@.len(),
            forall|k: int| 0 <= k < i ==> (#[trigger] v[k]).partition_key != key@,
        decreases keys@.len() - i,
    {
        assert(keys@[i as int]@ == v[i as int].partition_key);
        if bytes_eq(keys[i].as_slice(), key) {
            return true;
        }
        i = i + 1;
    }
    false
}

/// The indices of a list, as numbers.
pub open spec fn indices(s: Seq<usize>) -> Seq<int> {
    Seq::new(s.len(), |i: int| s[i] as int)
}

fn to_load(
    keys: &Vec<Vec<u8>>,
    groups: &[Group],
    Ghost(v): Ghost<Seq<ManifestListEntryView>>,
) -> (r: Vec<usize>)
    requires
        are_keys(keys@, v),
    ensures
        indices(r@) == receivers(v, group_views(groups@), v.len() as int),
        forall|k: int| 0 <= k < r@.len() ==> #[trigger] r@[k] < v.len(),
{
    let ghost g = group_views(groups@);
    let mut r: Vec<usize> = Vec::new();
    let mut i: usize = 0;
    while i < keys.len()
        invariant
            are_keys(keys@, v),
            i <= v.len(),
            g == group_views(groups@),
            indices(r@) == receivers(v, g, i as int),
            forall|k: int| 0 <= k < r@.len() ==> #[trigger] r@[k] < v.len(),
        decreases keys@.len() - i,
    {
        assert(keys@[i as int]@ == v[i as int].partition_key);
        if is_latest(keys, i, Ghost(v)) && find_group(groups, keys[i].as_slice()).is_some() {
            let ghost before = r@;
            r.push(i);
            assert(indices(r@) =~= indices(before).push(i as int));
        }
        i = i + 1;
    }
    r
}

/// The parts that take new superfiles, and so must be read.
pub fn parts_to_load(
    strategy: &PartitionStrategy,
    old: &[ManifestListEntry],
    groups: &[Group],
) -> (r: Vec<usize>)
    ensures
        indices(r@) == receivers(
            keyed(strategy@, part_views(old@)),
            group_views(groups@),
            old@.len() as int,
        ),
        forall|k: int| 0 <= k < r@.len() ==> #[trigger] r@[k] < old@.len(),
{
    let keys = keys_of(strategy, old);
    to_load(&keys, groups, Ghost(keyed(strategy@, part_views(old@))))
}

/// What loaded parts hold.
pub open spec fn loaded_superfiles(
    loads: Seq<Result<Arc<ManifestPart>, ManifestLoadError>>,
) -> Seq<Seq<SuperfileEntryView>> {
    Seq::new(loads.len(), |i: int| entry_views((loads[i]->Ok_0).superfiles@))
}

/// The first part that could not be loaded.
pub open spec fn first_unloaded(
    loads: Seq<Result<Arc<ManifestPart>, ManifestLoadError>>,
    from: int,
) -> Option<int>
    decreases loads.len() - from,
{
    if from >= loads.len() {
        None
    } else if loads[from] is Err {
        Some(from)
    } else {
        first_unloaded(loads, from + 1)
    }
}

/// Why a commit cannot go on without a part.
pub open spec fn unloaded_text(id: u128, e: ManifestLoadError) -> Seq<char> {
    "loading existing part "@ + id_text(id) + " for partition rewrite: "@ + load_error_text(e)
}

proof fn lemma_receivers_grow(
    old: Seq<ManifestListEntryView>,
    groups: Seq<GroupView>,
    m: int,
    n: int,
)
    requires
        0 <= m <= n,
    ensures
        receivers(old, groups, m).len() <= receivers(old, groups, n).len(),
        receivers(old, groups, m) == receivers(old, groups, n).take(
            receivers(old, groups, m).len() as int,
        ),
    decreases n - m,
{
    if m < n {
        lemma_receivers_grow(old, groups, m, n - 1);
        let a = receivers(old, groups, m);
        let b = receivers(old, groups, n - 1);
        assert(b.push(n - 1).take(a.len() as int) =~= b.take(a.len() as int));
    } else {
        assert(receivers(old, groups, n).take(receivers(old, groups, n).len() as int)
            =~= receivers(old, groups, n));
    }
}

/// The steps of the old parts. `loads` are the parts that take new superfiles.
fn plan_old(
    strategy: &PartitionStrategy,
    old: &[ManifestListEntry],
    keys: &Vec<Vec<u8>>,
    groups: &[Group],
    loads: &Vec<Result<Arc<ManifestPart>, ManifestLoadError>>,
    target: u64,
    threshold: u64,
) -> (r: Vec<Step>)
    requires
        are_keys(keys@, keyed(strategy@, part_views(old@))),
        loads@.len() == receivers(
            keyed(strategy@, part_views(old@)),
            group_views(groups@),
            old@.len() as int,
        ).len(),
        forall|k: int| 0 <= k < loads@.len() ==> #[trigger] loads@[k] is Ok,
    ensures
        step_views(r@) == walked(
            keyed(strategy@, part_views(old@)),
            group_views(groups@),
            loaded_superfiles(loads@),
            target,
            threshold,
            old@.len() as int,
        ),
        keeps_within(r@, old@.len()),
{
    let ghost v = keyed(strategy@, part_views(old@));
    let ghost g = group_views(groups@);
    let ghost had = loaded_superfiles(loads@);
    let mut steps: Vec<Step> = Vec::new();
    let n_loads: usize = loads.len();
    let mut next: usize = 0;
    let mut i: usize = 0;
    while i < old.len()
        invariant
            i <= old@.len(),
            v == keyed(strategy@, part_views(old@)),
            are_keys(keys@, v),
            g == group_views(groups@),
            had == loaded_superfiles(loads@),
            n_loads == loads@.len(),
            loads@.len() == receivers(v, g, old@.len() as int).len(),
            forall|k: int| 0 <= k < loads@.len() ==> #[trigger] loads@[k] is Ok,
            next == receivers(v, g, i as int).len(),
            step_views(steps@) == walked(v, g, had, target, threshold, i as int),
            keeps_within(steps@, old@.len()),
        decreases old@.len() - i,
    {
        let ghost before = step_views(steps@);
        assert(keys@[i as int]@ == v[i as int].partition_key);
        let place = find_group(groups, keys[i].as_slice());
        let receiving: Option<usize> = if is_latest(keys, i, Ghost(v)) {
            place
        } else {
            None
        };
        match receiving {
            Some(p) => {
                proof {
                    assert(receives(v, g, i as int));
                    lemma_receivers_grow(v, g, i as int + 1, old@.len() as int);
                }
                let new = &groups[p].superfiles;
                let n_new: usize = new.len();
                match &loads[next] {
                    Ok(part) => {
                        let n_had: usize = part.superfiles.len();
                        assert(had[next as int] == entry_views(part.superfiles@));
                        let key = bytes_copy(keys[i].as_slice());
                        if n_had as u128 + n_new as u128 > target as u128
                            || old[i].size_bytes_compressed >= threshold {
                            let built = Step::Build { key, superfiles: share_all(new) };
                            steps.push(Step::Keep(i));
                            steps.push(built);
                            assert(step_views(steps@) =~= before + steps_at(
                                v,
                                g,
                                had,
                                target,
                                threshold,
                                i as int,
                            ));
                        } else {
                            let mut superfiles = share_all(&part.superfiles);
                            let mut more = share_all(new);
                            superfiles.append(&mut more);
                            assert(entry_views(superfiles@) =~= entry_views(part.superfiles@)
                                + entry_views(new@));
                            let built = Step::Build { key, superfiles };
                            steps.push(built);
                            assert(step_views(steps@) =~= before + steps_at(
                                v,
                                g,
                                had,
                                target,
                                threshold,
                                i as int,
                            ));
                        }
                    },
                    Err(_) => {
                        assert(false);
                    },
                }
                assert(next < n_loads);
                next = next + 1;
            },
            None => {
                steps.push(Step::Keep(i));
                assert(step_views(steps@) =~= before + steps_at(v, g, had, target, threshold, i as int));
            },
        }
        i = i + 1;
    }
    steps
}

/// The entries of the next list. `loads` are the parts that
/// [`parts_to_load`] names, in its order.
pub fn plan_steps(
    strategy: &PartitionStrategy,
    old: &[ManifestListEntry],
    groups: &[Group],
    loads: Vec<Result<Arc<ManifestPart>, ManifestLoadError>>,
    target: u64,
    threshold: u64,
) -> (r: Result<Vec<Step>, CommitError>)
    requires
        loads@.len() == receivers(
            keyed(strategy@, part_views(old@)),
            group_views(groups@),
            old@.len() as int,
        ).len(),
    ensures
        match first_unloaded(loads@, 0) {
            None => r matches Ok(steps) && step_views(steps@) == planned(
                keyed(strategy@, part_views(old@)),
                group_views(groups@),
                loaded_superfiles(loads@),
                target,
                threshold,
            ) && keeps_within(steps@, old@.len()),
            Some(k) => r matches Err(CommitError::PointerParse(s)) && s@ == unloaded_text(
                old@[receivers(
                    keyed(strategy@, part_views(old@)),
                    group_views(groups@),
                    old@.len() as int,
                )[k]].part_id.0,
                loads@[k]->Err_0,
            ),
        },
{
    let ghost v = keyed(strategy@, part_views(old@));
    let ghost g = group_views(groups@);
    let keys = keys_of(strategy, old);
    let wanted = to_load(&keys, groups, Ghost(v));
    let mut k: usize = 0;
    while k < loads.len()
        invariant
            k <= loads@.len(),
            v == keyed(strategy@, part_views(old@)),
            are_keys(keys@, v),
            g == group_views(groups@),
            loads@.len() == wanted@.len(),
            indices(wanted@) == receivers(v, g, old@.len() as int),
            forall|j: int| 0 <= j < wanted@.len() ==> #[trigger] wanted@[j] < old@.len(),
            forall|j: int| 0 <= j < k ==> #[trigger] loads@[j] is Ok,
            first_unloaded(loads@, 0) == first_unloaded(loads@, k as int),
        decreases loads@.len() - k,
    {
        match &loads[k] {
            Ok(_) => {},
            Err(e) => {
                let at: usize = wanted[k];
                assert(indices(wanted@)[k as int] == at);
                let mut s = "loading existing part ".to_string();
                s.append(write_id(old[at].part_id.0).as_str());
                s.append(" for partition rewrite: ");
                s.append(e.message().as_str());
                return Err(CommitError::PointerParse(s));
            },
        }
        k = k + 1;
    }
    let mut steps = plan_old(strategy, old, &keys, groups, &loads, target, threshold);
    let ghost first = step_views(steps@);
    let mut m: usize = 0;
    proof {
        assert(g.take(0) =~= Seq::empty());
        assert(step_views(steps@) =~= first + cold(v, g.take(0)));
    }
    while m < groups.len()
        invariant
            m <= groups@.len(),
            v == keyed(strategy@, part_views(old@)),
            are_keys(keys@, v),
            g == group_views(groups@),
            step_views(steps@) == first + cold(v, g.take(m as int)),
            keeps_within(steps@, old@.len()),
        decreases groups@.len() - m,
    {
        let ghost before = step_views(steps@);
        proof {
            assert(g.take(m as int + 1).drop_last() =~= g.take(m as int));
            assert(g.take(m as int + 1).last() == groups@[m as int]@);
        }
        if !is_known(&keys, groups[m].key.as_slice(), Ghost(v)) {
            let built = Step::Build {
                key: bytes_copy(groups[m].key.as_slice()),
                superfiles: share_all(&groups[m].superfiles),
            };
            steps.push(built);
            assert(step_views(steps@) =~= before.push(built@));
            assert(step_views(steps@) =~= first + cold(v, g.take(m as int + 1)));
        }
        m = m + 1;
    }
    proof {
        assert(g.take(m as int) =~= g);
    }
    Ok(steps)
}

// ---------------------------------------------------------------- laws

/// The parts that are built.
pub open spec fn builds(steps: Seq<StepView>) -> nat
    decreases steps.len(),
{
    if steps.len() == 0 {
        0
    } else {
        builds(steps.drop_last()) + if steps.last() is Build {
            1nat
        } else {
            0nat
        }
    }
}

proof fn lemma_builds_join(a: Seq<StepView>, b: Seq<StepView>)
    ensures
        builds(a + b) == builds(a) + builds(b),
    decreases b.len(),
{
    if b.len() == 0 {
        assert(a + b =~= a);
    } else {
        assert((a + b).drop_last() =~= a + b.drop_last());
        lemma_builds_join(a, b.drop_last());
    }
}

proof fn lemma_builds_walked(
    old: Seq<ManifestListEntryView>,
    groups: Seq<GroupView>,
    had: Seq<Seq<SuperfileEntryView>>,
    target: u64,
    threshold: u64,
    n: int,
)
    requires
        0 <= n,
    ensures
        builds(walked(old, groups, had, target, threshold, n)) == receivers(old, groups, n).len(),
    decreases n,
{
    if n > 0 {
        lemma_builds_walked(old, groups, had, target, threshold, n - 1);
        let s = steps_at(old, groups, had, target, threshold, n - 1);
        lemma_builds_join(walked(old, groups, had, target, threshold, n - 1), s);
        if s.len() == 2 {
            assert(s.drop_last() =~= seq![s[0]]);
            assert(seq![s[0]].drop_last() =~= Seq::empty());
        } else {
            assert(s.drop_last() =~= Seq::empty());
        }
        reveal_with_fuel(builds, 3);
    }
}

/// That one of the first `n` parts is the last one of the partition.
spec fn has_latest(old: Seq<ManifestListEntryView>, key: Seq<u8>, n: int) -> bool {
    exists|i: int| 0 <= i < n && (#[trigger] old[i]).partition_key == key && latest(old, i)
}

proof fn lemma_known_has_latest(old: Seq<ManifestListEntryView>, key: Seq<u8>)
    ensures
        known(old, key) <==> has_latest(old, key, old.len() as int),
{
    if known(old, key) {
        let i = choose|i: int| 0 <= i < old.len() && (#[trigger] old[i]).partition_key == key;
        lemma_latest_from(old, key, i);
    }
}

proof fn lemma_latest_from(old: Seq<ManifestListEntryView>, key: Seq<u8>, i: int)
    requires
        0 <= i < old.len(),
        old[i].partition_key == key,
    ensures
        has_latest(old, key, old.len() as int),
    decreases old.len() - i,
{
    if !latest(old, i) {
        let j = choose|j: int|
            i < j < old.len() && (#[trigger] old[j]).partition_key == old[i].partition_key;
        lemma_latest_from(old, key, j);
    }
}

proof fn lemma_latest_is_one(old: Seq<ManifestListEntryView>, i: int, j: int)
    requires
        0 <= i < old.len(),
        0 <= j < old.len(),
        latest(old, i),
        latest(old, j),
        old[i].partition_key == old[j].partition_key,
    ensures
        i == j,
{
}

/// Receivers after one more group: one more where the list knows the
/// partition.
proof fn lemma_receivers_of_more(
    old: Seq<ManifestListEntryView>,
    groups: Seq<GroupView>,
    n: int,
)
    requires
        groups.len() > 0,
        !has_group(groups.drop_last(), groups.last().key),
        0 <= n <= old.len(),
    ensures
        receivers(old, groups, n).len() == receivers(old, groups.drop_last(), n).len() + if has_latest(
            old,
            groups.last().key,
            n,
        ) {
            1nat
        } else {
            0nat
        },
    decreases n,
{
    let key = groups.last().key;
    let rest = groups.drop_last();
    if n > 0 {
        lemma_receivers_of_more(old, groups, n - 1);
        let i = n - 1;
        lemma_group_of(rest, old[i].partition_key);
        if has_latest(old, key, n - 1) {
            let j = choose|j: int|
                0 <= j < n - 1 && (#[trigger] old[j]).partition_key == key && latest(old, j);
            assert(has_latest(old, key, n));
            if old[i].partition_key == key && latest(old, i) {
                lemma_latest_is_one(old, i, j);
            }
        } else {
            if old[i].partition_key == key && latest(old, i) {
                assert(has_latest(old, key, n));
            } else if has_latest(old, key, n) {
                let j = choose|j: int|
                    0 <= j < n && (#[trigger] old[j]).partition_key == key && latest(old, j);
                assert(has_latest(old, key, n - 1));
            }
        }
    }
}

proof fn lemma_last_key_is_new(groups: Seq<GroupView>)
    requires
        groups.len() > 0,
        keys_ascend(groups),
    ensures
        !has_group(groups.drop_last(), groups.last().key),
        keys_ascend(groups.drop_last()),
{
    let rest = groups.drop_last();
    assert forall|i: int, j: int| 0 <= i < j < rest.len() implies crate::lex::lex_lt(
        (#[trigger] rest[i]).key,
        (#[trigger] rest[j]).key,
    ) by {
        assert(crate::lex::lex_lt(groups[i].key, groups[j].key));
    }
    if has_group(rest, groups.last().key) {
        let i = choose|i: int|
            0 <= i < rest.len() && (#[trigger] rest[i]).key == groups.last().key;
        crate::lex::lex_le_reflexive(groups.last().key);
        assert(crate::lex::lex_lt(groups[i].key, groups[groups.len() - 1].key));
    }
}

proof fn lemma_receivers_and_cold(old: Seq<ManifestListEntryView>, groups: Seq<GroupView>)
    requires
        keys_ascend(groups),
    ensures
        receivers(old, groups, old.len() as int).len() + builds(cold(old, groups)) == groups.len(),
    decreases groups.len(),
{
    if groups.len() == 0 {
        lemma_no_groups(old, groups, old.len() as int);
    } else {
        let rest = groups.drop_last();
        lemma_last_key_is_new(groups);
        lemma_receivers_and_cold(old, rest);
        lemma_receivers_of_more(old, groups, old.len() as int);
        lemma_known_has_latest(old, groups.last().key);
        let c = cold(old, groups);
        if !known(old, groups.last().key) {
            assert(c.drop_last() =~= cold(old, rest));
        }
    }
}

proof fn lemma_no_groups(old: Seq<ManifestListEntryView>, groups: Seq<GroupView>, n: int)
    requires
        groups.len() == 0,
        0 <= n,
    ensures
        receivers(old, groups, n).len() == 0,
    decreases n,
{
    if n > 0 {
        lemma_no_groups(old, groups, n - 1);
    }
}

/// A commit writes one part for every partition that it touches, however many
/// parts the list has.
pub proof fn one_part_per_touched_partition(
    old: Seq<ManifestListEntryView>,
    groups: Seq<GroupView>,
    had: Seq<Seq<SuperfileEntryView>>,
    target: u64,
    threshold: u64,
)
    requires
        keys_ascend(groups),
    ensures
        builds(planned(old, groups, had, target, threshold)) == groups.len(),
{
    lemma_builds_join(walked(old, groups, had, target, threshold, old.len() as int), cold(old, groups));
    lemma_builds_walked(old, groups, had, target, threshold, old.len() as int);
    lemma_receivers_and_cold(old, groups);
}

proof fn lemma_walked_contains(
    old: Seq<ManifestListEntryView>,
    groups: Seq<GroupView>,
    had: Seq<Seq<SuperfileEntryView>>,
    target: u64,
    threshold: u64,
    i: int,
    n: int,
    x: StepView,
)
    requires
        0 <= i < n,
        steps_at(old, groups, had, target, threshold, i).contains(x),
    ensures
        walked(old, groups, had, target, threshold, n).contains(x),
    decreases n,
{
    let a = walked(old, groups, had, target, threshold, n - 1);
    let b = steps_at(old, groups, had, target, threshold, n - 1);
    if i < n - 1 {
        lemma_walked_contains(old, groups, had, target, threshold, i, n - 1, x);
        let k = choose|k: int| 0 <= k < a.len() && a[k] == x;
        assert((a + b)[k] == x);
    } else {
        let k = choose|k: int| 0 <= k < b.len() && b[k] == x;
        assert((a + b)[a.len() + k] == x);
    }
}

/// A part that takes no new superfiles stays in the list as it is.
pub proof fn other_parts_stay(
    old: Seq<ManifestListEntryView>,
    groups: Seq<GroupView>,
    had: Seq<Seq<SuperfileEntryView>>,
    target: u64,
    threshold: u64,
    i: int,
)
    requires
        0 <= i < old.len(),
        !receives(old, groups, i),
    ensures
        planned(old, groups, had, target, threshold).contains(StepView::Keep(i)),
{
    let s = steps_at(old, groups, had, target, threshold, i);
    assert(s[0] == StepView::Keep(i));
    lemma_walked_contains(old, groups, had, target, threshold, i, old.len() as int, StepView::Keep(i));
    let a = walked(old, groups, had, target, threshold, old.len() as int);
    let k = choose|k: int| 0 <= k < a.len() && a[k] == StepView::Keep(i);
    assert(planned(old, groups, had, target, threshold)[k] == StepView::Keep(i));
}

/// A part that is large enough already is carried over as it is, and the new
/// superfiles of its partition go into a part of their own.
pub proof fn large_parts_are_split(
    old: Seq<ManifestListEntryView>,
    groups: Seq<GroupView>,
    had: Seq<Seq<SuperfileEntryView>>,
    target: u64,
    threshold: u64,
    i: int,
)
    requires
        0 <= i < old.len(),
        receives(old, groups, i),
        old[i].size_bytes_compressed >= threshold,
    ensures
        planned(old, groups, had, target, threshold).contains(StepView::Keep(i)),
        planned(old, groups, had, target, threshold).contains(
            StepView::Build {
                key: old[i].partition_key,
                superfiles: group_of(groups, old[i].partition_key)->0,
            },
        ),
{
    let n = old.len() as int;
    let s = steps_at(old, groups, had, target, threshold, i);
    let all = walked(old, groups, had, target, threshold, n);
    let next = planned(old, groups, had, target, threshold);
    assert(s.contains(s[0]) && s.contains(s[1]));
    lemma_walked_contains(old, groups, had, target, threshold, i, n, s[0]);
    lemma_walked_contains(old, groups, had, target, threshold, i, n, s[1]);
    let j = choose|j: int| 0 <= j < all.len() && all[j] == s[0];
    let k = choose|k: int| 0 <= k < all.len() && all[k] == s[1];
    assert(next[j] == s[0]);
    assert(next[k] == s[1]);
}

/// That a part is no larger than `target`, or holds new superfiles alone.
pub open spec fn within_target(step: StepView, groups: Seq<GroupView>, target: u64) -> bool {
    match step {
        StepView::Keep(_) => true,
        StepView::Build { key, superfiles } => superfiles.len() <= target || group_of(groups, key)
            == Some(superfiles),
    }
}

proof fn lemma_walked_within(
    old: Seq<ManifestListEntryView>,
    groups: Seq<GroupView>,
    had: Seq<Seq<SuperfileEntryView>>,
    target: u64,
    threshold: u64,
    n: int,
    k: int,
)
    requires
        0 <= k < walked(old, groups, had, target, threshold, n).len(),
    ensures
        within_target(walked(old, groups, had, target, threshold, n)[k], groups, target),
    decreases n,
{
    if n > 0 {
        if k < walked(old, groups, had, target, threshold, n - 1).len() {
            lemma_walked_within(old, groups, had, target, threshold, n - 1, k);
        }
    }
}

proof fn lemma_cold_within(
    old: Seq<ManifestListEntryView>,
    groups: Seq<GroupView>,
    target: u64,
    k: int,
)
    requires
        keys_ascend(groups),
        0 <= k < cold(old, groups).len(),
    ensures
        within_target(cold(old, groups)[k], groups, target),
        cold(old, groups)[k] matches StepView::Build { key, .. } && has_group(groups, key),
    decreases groups.len(),
{
    if groups.len() > 0 {
        let rest = groups.drop_last();
        lemma_last_key_is_new(groups);
        if k < cold(old, rest).len() {
            lemma_cold_within(old, rest, target, k);
            let key = cold(old, rest)[k]->key;
            let i = choose|i: int| 0 <= i < rest.len() && (#[trigger] rest[i]).key == key;
            assert(groups[i].key == key);
        } else {
            assert(groups[groups.len() - 1].key == groups.last().key);
        }
    }
}

/// No part is built larger than `target`, but for one that holds the new
/// superfiles of its partition alone.
pub proof fn parts_stay_within_target(
    old: Seq<ManifestListEntryView>,
    groups: Seq<GroupView>,
    had: Seq<Seq<SuperfileEntryView>>,
    target: u64,
    threshold: u64,
    k: int,
)
    requires
        keys_ascend(groups),
        0 <= k < planned(old, groups, had, target, threshold).len(),
    ensures
        within_target(planned(old, groups, had, target, threshold)[k], groups, target),
{
    let a = walked(old, groups, had, target, threshold, old.len() as int);
    if k < a.len() {
        lemma_walked_within(old, groups, had, target, threshold, old.len() as int, k);
    } else {
        lemma_cold_within(old, groups, target, k - a.len());
    }
}

/// How often a superfile occurs in the parts of the next list. `all` is what
/// the old parts hold.
pub open spec fn step_occurrences(
    steps: Seq<StepView>,
    all: Seq<Seq<SuperfileEntryView>>,
    e: SuperfileEntryView,
) -> nat
    decreases steps.len(),
{
    if steps.len() == 0 {
        0
    } else {
        step_occurrences(steps.drop_last(), all, e) + match steps.last() {
            StepView::Keep(i) => occurrences(all[i], e),
            StepView::Build { superfiles, .. } => occurrences(superfiles, e),
        }
    }
}

/// How often a superfile occurs in the first `n` parts.
pub open spec fn part_occurrences(
    all: Seq<Seq<SuperfileEntryView>>,
    e: SuperfileEntryView,
    n: int,
) -> nat
    decreases n,
{
    if n <= 0 {
        0
    } else {
        part_occurrences(all, e, n - 1) + occurrences(all[n - 1], e)
    }
}

/// How often a superfile occurs in what the first `n` parts receive.
spec fn received(
    old: Seq<ManifestListEntryView>,
    groups: Seq<GroupView>,
    e: SuperfileEntryView,
    n: int,
) -> nat
    decreases n,
{
    if n <= 0 {
        0
    } else if receives(old, groups, n - 1) {
        received(old, groups, e, n - 1) + occurrences(
            group_of(groups, old[n - 1].partition_key)->0,
            e,
        )
    } else {
        received(old, groups, e, n - 1)
    }
}

proof fn lemma_occurrences_join(
    a: Seq<SuperfileEntryView>,
    b: Seq<SuperfileEntryView>,
    e: SuperfileEntryView,
)
    ensures
        occurrences(a + b, e) == occurrences(a, e) + occurrences(b, e),
    decreases b.len(),
{
    if b.len() == 0 {
        assert(a + b =~= a);
    } else {
        assert((a + b).drop_last() =~= a + b.drop_last());
        lemma_occurrences_join(a, b.drop_last(), e);
    }
}

proof fn lemma_step_occurrences_join(
    a: Seq<StepView>,
    b: Seq<StepView>,
    all: Seq<Seq<SuperfileEntryView>>,
    e: SuperfileEntryView,
)
    ensures
        step_occurrences(a + b, all, e) == step_occurrences(a, all, e) + step_occurrences(
            b,
            all,
            e,
        ),
    decreases b.len(),
{
    if b.len() == 0 {
        assert(a + b =~= a);
    } else {
        assert((a + b).drop_last() =~= a + b.drop_last());
        lemma_step_occurrences_join(a, b.drop_last(), all, e);
    }
}

/// That `had` is what the receivers hold, where `all` is what all parts hold.
pub open spec fn had_from(
    old: Seq<ManifestListEntryView>,
    groups: Seq<GroupView>,
    had: Seq<Seq<SuperfileEntryView>>,
    all: Seq<Seq<SuperfileEntryView>>,
) -> bool {
    &&& all.len() == old.len()
    &&& forall|i: int|
        0 <= i < old.len() && receives(old, groups, i) ==> had[(#[trigger] receivers(
            old,
            groups,
            i,
        )).len() as int] == all[i]
}

proof fn lemma_walked_occurrences(
    old: Seq<ManifestListEntryView>,
    groups: Seq<GroupView>,
    had: Seq<Seq<SuperfileEntryView>>,
    all: Seq<Seq<SuperfileEntryView>>,
    target: u64,
    threshold: u64,
    e: SuperfileEntryView,
    n: int,
)
    requires
        had_from(old, groups, had, all),
        0 <= n <= old.len(),
    ensures
        step_occurrences(walked(old, groups, had, target, threshold, n), all, e) == part_occurrences(
            all,
            e,
            n,
        ) + received(old, groups, e, n),
    decreases n,
{
    if n > 0 {
        lemma_walked_occurrences(old, groups, had, all, target, threshold, e, n - 1);
        let i = n - 1;
        let s = steps_at(old, groups, had, target, threshold, i);
        lemma_step_occurrences_join(walked(old, groups, had, target, threshold, i), s, all, e);
        reveal_with_fuel(step_occurrences, 3);
        if receives(old, groups, i) {
            let new = group_of(groups, old[i].partition_key)->0;
            assert(had[receivers(old, groups, i).len() as int] == all[i]);
            lemma_occurrences_join(all[i], new, e);
            if s.len() == 2 {
                assert(s.drop_last() =~= seq![s[0]]);
                assert(seq![s[0]].drop_last() =~= Seq::empty());
            } else {
                assert(s.drop_last() =~= Seq::empty());
            }
        } else {
            assert(s.drop_last() =~= Seq::empty());
        }
    }
}

proof fn lemma_received_of_more(
    old: Seq<ManifestListEntryView>,
    groups: Seq<GroupView>,
    e: SuperfileEntryView,
    n: int,
)
    requires
        groups.len() > 0,
        !has_group(groups.drop_last(), groups.last().key),
        0 <= n <= old.len(),
    ensures
        received(old, groups, e, n) == received(old, groups.drop_last(), e, n) + if has_latest(
            old,
            groups.last().key,
            n,
        ) {
            occurrences(groups.last().superfiles, e)
        } else {
            0
        },
    decreases n,
{
    let key = groups.last().key;
    let rest = groups.drop_last();
    if n > 0 {
        lemma_received_of_more(old, groups, e, n - 1);
        let i = n - 1;
        lemma_group_of(rest, old[i].partition_key);
        if has_latest(old, key, n - 1) {
            let j = choose|j: int|
                0 <= j < n - 1 && (#[trigger] old[j]).partition_key == key && latest(old, j);
            assert(has_latest(old, key, n));
            if old[i].partition_key == key && latest(old, i) {
                lemma_latest_is_one(old, i, j);
            }
        } else {
            if old[i].partition_key == key && latest(old, i) {
                assert(has_latest(old, key, n));
            } else if has_latest(old, key, n) {
                let j = choose|j: int|
                    0 <= j < n && (#[trigger] old[j]).partition_key == key && latest(old, j);
                assert(has_latest(old, key, n - 1));
            }
        }
    }
}

proof fn lemma_received_and_cold(
    old: Seq<ManifestListEntryView>,
    groups: Seq<GroupView>,
    all: Seq<Seq<SuperfileEntryView>>,
    e: SuperfileEntryView,
)
    requires
        keys_ascend(groups),
    ensures
        received(old, groups, e, old.len() as int) + step_occurrences(cold(old, groups), all, e)
            == grouped(groups, e),
    decreases groups.len(),
{
    if groups.len() == 0 {
        lemma_nothing_received(old, groups, e, old.len() as int);
    } else {
        let rest = groups.drop_last();
        lemma_last_key_is_new(groups);
        lemma_received_and_cold(old, rest, all, e);
        lemma_received_of_more(old, groups, e, old.len() as int);
        lemma_known_has_latest(old, groups.last().key);
        let c = cold(old, groups);
        if !known(old, groups.last().key) {
            assert(c.drop_last() =~= cold(old, rest));
        }
    }
}

proof fn lemma_nothing_received(
    old: Seq<ManifestListEntryView>,
    groups: Seq<GroupView>,
    e: SuperfileEntryView,
    n: int,
)
    requires
        groups.len() == 0,
        0 <= n,
    ensures
        received(old, groups, e, n) == 0,
    decreases n,
{
    if n > 0 {
        lemma_nothing_received(old, groups, e, n - 1);
    }
}

/// The parts of the next list hold the superfiles of the old parts and the new
/// ones: none is lost and none is doubled.
pub proof fn commit_keeps_superfiles(
    old: Seq<ManifestListEntryView>,
    groups: Seq<GroupView>,
    had: Seq<Seq<SuperfileEntryView>>,
    all: Seq<Seq<SuperfileEntryView>>,
    target: u64,
    threshold: u64,
    e: SuperfileEntryView,
)
    requires
        keys_ascend(groups),
        had_from(old, groups, had, all),
    ensures
        step_occurrences(planned(old, groups, had, target, threshold), all, e) == part_occurrences(
            all,
            e,
            old.len() as int,
        ) + grouped(groups, e),
{
    lemma_step_occurrences_join(
        walked(old, groups, had, target, threshold, old.len() as int),
        cold(old, groups),
        all,
        e,
    );
    lemma_walked_occurrences(old, groups, had, all, target, threshold, e, old.len() as int);
    lemma_received_and_cold(old, groups, all, e);
}

/// New superfiles of a partition go to the last part of the list that is of
/// that partition, in whatever form its key is stored.
pub proof fn last_part_of_partition_receives(
    strategy: PartitionStrategyView,
    old: Seq<ManifestListEntryView>,
    groups: Seq<GroupView>,
    key: Seq<u8>,
    i: int,
)
    requires
        has_group(groups, key),
        key == stored_form(strategy, key),
        key_parsed(key, strategy) is Ok,
        0 <= i < old.len(),
        key_parsed(old[i].partition_key, strategy) == key_parsed(key, strategy),
        forall|j: int|
            i < j < old.len() ==> key_parsed((#[trigger] old[j]).partition_key, strategy)
                != key_parsed(key, strategy),
    ensures
        receives(keyed(strategy, old), groups, i),
        keyed(strategy, old)[i].partition_key == key,
{
    let v = keyed(strategy, old);
    stored_forms_tell_partitions_apart(strategy, key, old[i].partition_key);
    lemma_group_of(groups, key);
    assert forall|j: int| i < j < v.len() implies (#[trigger] v[j]).partition_key
        != v[i].partition_key by {
        stored_forms_tell_partitions_apart(strategy, key, old[j].partition_key);
    }
}

proof fn lemma_kept_at(
    old: Seq<ManifestListEntryView>,
    groups: Seq<GroupView>,
    had: Seq<Seq<SuperfileEntryView>>,
    target: u64,
    threshold: u64,
    n: int,
    i: int,
)
    requires
        walked(old, groups, had, target, threshold, n).contains(StepView::Keep(i)),
    ensures
        0 <= i < n,
        steps_at(old, groups, had, target, threshold, i).contains(StepView::Keep(i)),
    decreases n,
{
    let all = walked(old, groups, had, target, threshold, n);
    let k = choose|k: int| 0 <= k < all.len() && all[k] == StepView::Keep(i);
    let head = walked(old, groups, had, target, threshold, n - 1);
    if n > 0 {
        if k < head.len() {
            assert(head[k] == StepView::Keep(i));
            assert(head.contains(StepView::Keep(i)));
            lemma_kept_at(old, groups, had, target, threshold, n - 1, i);
        } else {
            let s = steps_at(old, groups, had, target, threshold, n - 1);
            assert(s[k - head.len()] == StepView::Keep(i));
        }
    }
}

/// A part with room left is written anew: the superfiles that it holds and the
/// new ones of its partition are one part, and the old one goes.
pub proof fn small_parts_are_written_anew(
    old: Seq<ManifestListEntryView>,
    groups: Seq<GroupView>,
    had: Seq<Seq<SuperfileEntryView>>,
    target: u64,
    threshold: u64,
    i: int,
    now: Seq<SuperfileEntryView>,
    new: Seq<SuperfileEntryView>,
)
    requires
        0 <= i < old.len(),
        receives(old, groups, i),
        now == had[receivers(old, groups, i).len() as int],
        group_of(groups, old[i].partition_key) == Some(new),
        now.len() + new.len() <= target,
        old[i].size_bytes_compressed < threshold,
        keys_ascend(groups),
    ensures
        planned(old, groups, had, target, threshold).contains(
            StepView::Build { key: old[i].partition_key, superfiles: now + new },
        ),
        !planned(old, groups, had, target, threshold).contains(StepView::Keep(i)),
{
    let n = old.len() as int;
    let s = steps_at(old, groups, had, target, threshold, i);
    let all = walked(old, groups, had, target, threshold, n);
    let next = planned(old, groups, had, target, threshold);
    assert(s.contains(s[0]));
    lemma_walked_contains(old, groups, had, target, threshold, i, n, s[0]);
    let j = choose|j: int| 0 <= j < all.len() && all[j] == s[0];
    assert(next[j] == s[0]);
    if next.contains(StepView::Keep(i)) {
        let k = choose|k: int| 0 <= k < next.len() && next[k] == StepView::Keep(i);
        if k < all.len() {
            assert(all[k] == StepView::Keep(i));
            assert(all.contains(StepView::Keep(i)));
            lemma_kept_at(old, groups, had, target, threshold, n, i);
        } else {
            lemma_cold_within(old, groups, target, k - all.len());
        }
    }
}

/// A part that would grow beyond the target stays as it is, and the new
/// superfiles of its partition go into a part of their own.
pub proof fn full_parts_are_split(
    old: Seq<ManifestListEntryView>,
    groups: Seq<GroupView>,
    had: Seq<Seq<SuperfileEntryView>>,
    target: u64,
    threshold: u64,
    i: int,
    now: Seq<SuperfileEntryView>,
    new: Seq<SuperfileEntryView>,
)
    requires
        0 <= i < old.len(),
        receives(old, groups, i),
        now == had[receivers(old, groups, i).len() as int],
        group_of(groups, old[i].partition_key) == Some(new),
        now.len() + new.len() > target,
    ensures
        planned(old, groups, had, target, threshold).contains(StepView::Keep(i)),
        planned(old, groups, had, target, threshold).contains(
            StepView::Build { key: old[i].partition_key, superfiles: new },
        ),
{
    let n = old.len() as int;
    let s = steps_at(old, groups, had, target, threshold, i);
    let all = walked(old, groups, had, target, threshold, n);
    let next = planned(old, groups, had, target, threshold);
    assert(s.contains(s[0]) && s.contains(s[1]));
    lemma_walked_contains(old, groups, had, target, threshold, i, n, s[0]);
    lemma_walked_contains(old, groups, had, target, threshold, i, n, s[1]);
    let j = choose|j: int| 0 <= j < all.len() && all[j] == s[0];
    let k = choose|k: int| 0 <= k < all.len() && all[k] == s[1];
    assert(next[j] == s[0]);
    assert(next[k] == s[1]);
}

/// The new superfiles of a partition are those of its group.
pub proof fn partitions_have_their_group(groups: Seq<GroupView>, i: int)
    requires
        keys_ascend(groups),
        0 <= i < groups.len(),
    ensures
        group_of(groups, groups[i].key) == Some(groups[i].superfiles),
    decreases groups.len(),
{
    let rest = groups.drop_last();
    lemma_last_key_is_new(groups);
    if i < rest.len() {
        assert(rest[i] == groups[i]);
        assert(has_group(rest, groups[i].key));
        partitions_have_their_group(rest, i);
    }
}

/// A partition that the list has no part of gets one, with all of its new
/// superfiles.
pub proof fn new_partitions_get_a_part(
    old: Seq<ManifestListEntryView>,
    groups: Seq<GroupView>,
    had: Seq<Seq<SuperfileEntryView>>,
    target: u64,
    threshold: u64,
    g: int,
)
    requires
        0 <= g < groups.len(),
        forall|i: int| 0 <= i < old.len() ==> (#[trigger] old[i]).partition_key != groups[g].key,
    ensures
        planned(old, groups, had, target, threshold).contains(
            StepView::Build { key: groups[g].key, superfiles: groups[g].superfiles },
        ),
{
    let x = StepView::Build { key: groups[g].key, superfiles: groups[g].superfiles };
    lemma_cold_contains(old, groups, g);
    let c = cold(old, groups);
    let a = walked(old, groups, had, target, threshold, old.len() as int);
    let k = choose|k: int| 0 <= k < c.len() && c[k] == x;
    assert((a + c)[a.len() + k] == x);
}

proof fn lemma_cold_contains(old: Seq<ManifestListEntryView>, groups: Seq<GroupView>, g: int)
    requires
        0 <= g < groups.len(),
        !known(old, groups[g].key),
    ensures
        cold(old, groups).contains(
            StepView::Build { key: groups[g].key, superfiles: groups[g].superfiles },
        ),
    decreases groups.len(),
{
    let x = StepView::Build { key: groups[g].key, superfiles: groups[g].superfiles };
    let c = cold(old, groups);
    let rest = cold(old, groups.drop_last());
    if g == groups.len() - 1 {
        assert(c[c.len() - 1] == x);
    } else {
        assert(groups.drop_last()[g] == groups[g]);
        lemma_cold_contains(old, groups.drop_last(), g);
        let k = choose|k: int| 0 <= k < rest.len() && rest[k] == x;
        assert(c[k] == x);
    }
}

/// The parts that are read are those that take new superfiles, all of them, in
/// the order of the list: the last part of each partition that has a group.
pub proof fn receivers_are_read(
    old: Seq<ManifestListEntryView>,
    groups: Seq<GroupView>,
    n: int,
    i: int,
)
    requires
        0 <= i < n <= old.len(),
    ensures
        receivers(old, groups, n).contains(i) <==> has_group(groups, old[i].partition_key) && forall|
            j: int,
        |
            i < j < old.len() ==> (#[trigger] old[j]).partition_key != old[i].partition_key,
        forall|k: int|
            0 <= k < receivers(old, groups, n).len() ==> 0 <= #[trigger] receivers(
                old,
                groups,
                n,
            )[k] < n,
        forall|k: int, m: int|
            0 <= k < m < receivers(old, groups, n).len() ==> #[trigger] receivers(old, groups, n)[k]
                < #[trigger] receivers(old, groups, n)[m],
    decreases n,
{
    lemma_group_of(groups, old[i].partition_key);
    lemma_receivers_within(old, groups, n);
    let r = receivers(old, groups, n);
    let head = receivers(old, groups, n - 1);
    if i == n - 1 {
        lemma_receivers_within(old, groups, n - 1);
        if receives(old, groups, i) {
            assert(r[head.len() as int] == i);
        }
    } else {
        receivers_are_read(old, groups, n - 1, i);
        if head.contains(i) {
            let k = choose|k: int| 0 <= k < head.len() && head[k] == i;
            assert(r[k] == i);
        }
        if r.contains(i) {
            let k = choose|k: int| 0 <= k < r.len() && r[k] == i;
            assert(head[k] == i);
        }
    }
}

proof fn lemma_receivers_within(old: Seq<ManifestListEntryView>, groups: Seq<GroupView>, n: int)
    ensures
        forall|k: int|
            0 <= k < receivers(old, groups, n).len() ==> 0 <= #[trigger] receivers(
                old,
                groups,
                n,
            )[k] < n,
        forall|k: int, m: int|
            0 <= k < m < receivers(old, groups, n).len() ==> #[trigger] receivers(old, groups, n)[k]
                < #[trigger] receivers(old, groups, n)[m],
    decreases n,
{
    if n > 0 {
        lemma_receivers_within(old, groups, n - 1);
        let (r, head) = (receivers(old, groups, n), receivers(old, groups, n - 1));
        assert forall|k: int| 0 <= k < r.len() implies 0 <= #[trigger] r[k] < n by {
            if k < head.len() {
                assert(r[k] == head[k]);
            }
        }
        assert forall|k: int, m: int| 0 <= k < m < r.len() implies #[trigger] r[k] < #[trigger] r[m] by {
            assert(r[k] == head[k]);
            if m < head.len() {
                assert(r[m] == head[m]);
            }
        }
    }
}

/// That a step stands at a place and another right behind it.
pub open spec fn followed_by(s: Seq<StepView>, k: int, a: StepView, b: StepView) -> bool {
    0 <= k && k + 1 < s.len() && s[k] == a && s[k + 1] == b
}

/// That a step is one for the `i`-th part: the part as it is, or a new part of
/// its partition.
pub open spec fn is_step_of(old: Seq<ManifestListEntryView>, step: StepView, i: int) -> bool {
    match step {
        StepView::Keep(k) => k == i,
        StepView::Build { key, .. } => key == old[i].partition_key,
    }
}

/// That a step for one part stands before a step for another.
pub open spec fn stand_in_order(
    old: Seq<ManifestListEntryView>,
    s: Seq<StepView>,
    a: int,
    b: int,
    i: int,
    j: int,
) -> bool {
    0 <= a < b < s.len() && is_step_of(old, s[a], i) && is_step_of(old, s[b], j)
}

proof fn lemma_walked_at(
    old: Seq<ManifestListEntryView>,
    groups: Seq<GroupView>,
    had: Seq<Seq<SuperfileEntryView>>,
    target: u64,
    threshold: u64,
    i: int,
    n: int,
)
    requires
        0 <= i < n,
    ensures
        ({
            let all = walked(old, groups, had, target, threshold, n);
            let here = steps_at(old, groups, had, target, threshold, i);
            let at = walked(old, groups, had, target, threshold, i).len();
            &&& all.len() >= at + here.len()
            &&& forall|m: int| 0 <= m < here.len() ==> all[at + m] == #[trigger] here[m]
        }),
    decreases n,
{
    let before = walked(old, groups, had, target, threshold, n - 1);
    let last = steps_at(old, groups, had, target, threshold, n - 1);
    let all = walked(old, groups, had, target, threshold, n);
    let here = steps_at(old, groups, had, target, threshold, i);
    let at = walked(old, groups, had, target, threshold, i).len();
    if i < n - 1 {
        lemma_walked_at(old, groups, had, target, threshold, i, n - 1);
        assert forall|m: int| 0 <= m < here.len() implies all[at + m] == #[trigger] here[m] by {
            assert(all[at + m] == before[at + m]);
        }
    }
}

/// Where a part is split, the new part of its partition stands right behind it
/// in the next list, so that it is the one that further superfiles go to.
pub proof fn split_parts_stand_behind_the_old(
    old: Seq<ManifestListEntryView>,
    groups: Seq<GroupView>,
    had: Seq<Seq<SuperfileEntryView>>,
    target: u64,
    threshold: u64,
    i: int,
    now: Seq<SuperfileEntryView>,
    new: Seq<SuperfileEntryView>,
)
    requires
        0 <= i < old.len(),
        receives(old, groups, i),
        now == had[receivers(old, groups, i).len() as int],
        group_of(groups, old[i].partition_key) == Some(new),
        now.len() + new.len() > target || old[i].size_bytes_compressed >= threshold,
    ensures
        exists|k: int| #[trigger]
            followed_by(
                planned(old, groups, had, target, threshold),
                k,
                StepView::Keep(i),
                StepView::Build { key: old[i].partition_key, superfiles: new },
            ),
{
    let n = old.len() as int;
    let all = walked(old, groups, had, target, threshold, n);
    let here = steps_at(old, groups, had, target, threshold, i);
    let next = planned(old, groups, had, target, threshold);
    let at = walked(old, groups, had, target, threshold, i).len() as int;
    lemma_walked_at(old, groups, had, target, threshold, i, n);
    assert(all[at + 0] == here[0] && all[at + 1] == here[1]);
    assert(next[at] == all[at] && next[at + 1] == all[at + 1]);
    assert(followed_by(
        next,
        at,
        StepView::Keep(i),
        StepView::Build { key: old[i].partition_key, superfiles: new },
    ));
}

/// The next list is in the order of the old one: what becomes of a part stands
/// before what becomes of a later one.
pub proof fn the_list_keeps_its_order(
    old: Seq<ManifestListEntryView>,
    groups: Seq<GroupView>,
    had: Seq<Seq<SuperfileEntryView>>,
    target: u64,
    threshold: u64,
    i: int,
    j: int,
)
    requires
        0 <= i < j < old.len(),
    ensures
        exists|a: int, b: int| #[trigger]
            stand_in_order(old, planned(old, groups, had, target, threshold), a, b, i, j),
{
    let n = old.len() as int;
    let all = walked(old, groups, had, target, threshold, n);
    let next = planned(old, groups, had, target, threshold);
    let (p, q) = (
        steps_at(old, groups, had, target, threshold, i),
        steps_at(old, groups, had, target, threshold, j),
    );
    let a = walked(old, groups, had, target, threshold, i).len() as int;
    let b = walked(old, groups, had, target, threshold, j).len() as int;
    lemma_walked_at(old, groups, had, target, threshold, i, n);
    lemma_walked_at(old, groups, had, target, threshold, j, n);
    lemma_walked_at(old, groups, had, target, threshold, i, j);
    assert(p.len() > 0 && q.len() > 0);
    assert(all[a + 0] == p[0] && all[b + 0] == q[0]);
    assert(next[a] == p[0] && next[b] == q[0]);
    assert(stand_in_order(old, next, a, b, i, j));
}

/// Behind the old parts come the partitions that the list has no part of, in the
/// order of the groups, each with all of its new superfiles.
pub proof fn new_partitions_come_last(old: Seq<ManifestListEntryView>, groups: Seq<GroupView>)
    ensures
        cold(old, groups) == groups.filter(
            |g: GroupView|
                !old.map_values(|e: ManifestListEntryView| e.partition_key).contains(g.key),
        ).map_values(|g: GroupView| StepView::Build { key: g.key, superfiles: g.superfiles }),
    decreases groups.len(),
{
    reveal(Seq::filter);
    let keys = old.map_values(|e: ManifestListEntryView| e.partition_key);
    let p = |g: GroupView|
        !old.map_values(|e: ManifestListEntryView| e.partition_key).contains(g.key);
    let f = |g: GroupView| StepView::Build { key: g.key, superfiles: g.superfiles };
    if groups.len() > 0 {
        let rest = groups.drop_last();
        let g = groups.last();
        new_partitions_come_last(old, rest);
        assert(known(old, g.key) <==> keys.contains(g.key)) by {
            if known(old, g.key) {
                let i = choose|i: int|
                    0 <= i < old.len() && (#[trigger] old[i]).partition_key == g.key;
                assert(keys[i] == g.key);
            }
            if keys.contains(g.key) {
                let i = choose|i: int| 0 <= i < keys.len() && keys[i] == g.key;
                assert(old[i].partition_key == g.key);
            }
        }
        let kept = rest.filter(p);
        assert(kept.push(g).map_values(f) =~= kept.map_values(f).push(f(g)));
        assert(cold(old, groups) =~= groups.filter(p).map_values(f));
    } else {
        assert(groups.filter(p).map_values(f) =~= Seq::empty());
    }
}

} // verus!
