//! New superfiles, sorted into the partitions that they belong to.

use std::sync::Arc;
use vstd::prelude::*;

use crate::error::CommitError;
use crate::lex::{
    bytes_le, bytes_eq, lex_le, lex_le_antisymmetric, lex_le_reflexive,
    lex_le_transitive, lex_lt,
};
use crate::manifest::entry::{SuperfileEntry, SuperfileEntryView};
use crate::manifest::list::{PartitionStrategy, PartitionStrategyView};
use crate::manifest::part::entry_views;
use crate::manifest::partition::{
    assign_partition, boundary_views, key_parsed, partition_of, stored_key, stored_key_round_trip,
    stored_partition_key, Boundary, BoundaryView, PartitionKey,
};
use crate::share::share;

verus! {

/// The new superfiles of one partition.
#[derive(Debug)]
pub struct Group {
    /// The encoded partition.
    pub key: Vec<u8>,
    pub superfiles: Vec<Arc<SuperfileEntry>>,
}

pub struct GroupView {
    pub key: Seq<u8>,
    pub superfiles: Seq<SuperfileEntryView>,
}

impl View for Group {
    type V = GroupView;

    open spec fn view(&self) -> GroupView {
        GroupView { key: self.key@, superfiles: entry_views(self.superfiles@) }
    }
}

/// The groups that a list holds.
pub open spec fn group_views(s: Seq<Group>) -> Seq<GroupView> {
    Seq::new(s.len(), |i: int| s[i]@)
}

/// The encoded partition of a superfile, where it lies in one.
pub open spec fn partition_key_of(
    e: SuperfileEntryView,
    strategy: PartitionStrategyView,
    values: Seq<BoundaryView>,
) -> Option<Seq<u8>> {
    match partition_of(e, strategy, values) {
        Ok(key) => Some(stored_key(strategy, key)),
        Err(_) => None,
    }
}

/// Why the first superfile that lies in no partition does not.
pub open spec fn first_unassigned(
    entries: Seq<SuperfileEntryView>,
    strategy: PartitionStrategyView,
    values: Seq<BoundaryView>,
) -> Option<Seq<char>>
    decreases entries.len(),
{
    if entries.len() == 0 {
        None
    } else {
        match first_unassigned(entries.drop_last(), strategy, values) {
            Some(e) => Some(e),
            None => match partition_of(entries.last(), strategy, values) {
                Ok(_) => None,
                Err(e) => Some(e),
            },
        }
    }
}

/// The superfiles of a partition, in their order.
pub open spec fn members(
    entries: Seq<SuperfileEntryView>,
    strategy: PartitionStrategyView,
    values: Seq<BoundaryView>,
    key: Seq<u8>,
) -> Seq<SuperfileEntryView>
    decreases entries.len(),
{
    if entries.len() == 0 {
        Seq::empty()
    } else {
        let rest = members(entries.drop_last(), strategy, values, key);
        if partition_key_of(entries.last(), strategy, values) == Some(key) {
            rest.push(entries.last())
        } else {
            rest
        }
    }
}

/// That there is a group of the partition.
pub open spec fn has_group(groups: Seq<GroupView>, key: Seq<u8>) -> bool {
    exists|i: int| 0 <= i < groups.len() && (#[trigger] groups[i]).key == key
}

/// That the keys ascend.
pub open spec fn keys_ascend(groups: Seq<GroupView>) -> bool {
    forall|i: int, j: int|
        0 <= i < j < groups.len() ==> lex_lt((#[trigger] groups[i]).key, (#[trigger] groups[j]).key)
}

/// That the groups are those of the superfiles: in ascending order of their
/// keys, each with all superfiles of its partition, and none without.
pub open spec fn groups_of(
    groups: Seq<GroupView>,
    entries: Seq<SuperfileEntryView>,
    strategy: PartitionStrategyView,
    values: Seq<BoundaryView>,
) -> bool {
    &&& keys_ascend(groups)
    &&& forall|i: int|
        0 <= i < groups.len() ==> (#[trigger] groups[i]).superfiles == members(
            entries,
            strategy,
            values,
            groups[i].key,
        ) && groups[i].superfiles.len() > 0
    &&& forall|k: int|
        0 <= k < entries.len() ==> partition_key_of(#[trigger] entries[k], strategy, values) is Some
            && has_group(groups, partition_key_of(entries[k], strategy, values)->0)
}

proof fn lemma_members_come_from(
    entries: Seq<SuperfileEntryView>,
    strategy: PartitionStrategyView,
    values: Seq<BoundaryView>,
    key: Seq<u8>,
)
    requires
        members(entries, strategy, values, key).len() > 0,
    ensures
        exists|k: int|
            0 <= k < entries.len() && partition_key_of(#[trigger] entries[k], strategy, values) == Some(key),
    decreases entries.len(),
{
    if partition_key_of(entries.last(), strategy, values) == Some(key) {
        assert(partition_key_of(entries[entries.len() - 1], strategy, values) == Some(key));
    } else {
        lemma_members_come_from(entries.drop_last(), strategy, values, key);
        let k = choose|k: int|
            0 <= k < entries.drop_last().len() && partition_key_of(
                #[trigger] entries.drop_last()[k],
                strategy,
                values,
            ) == Some(key);
        assert(entries.drop_last()[k] == entries[k]);
    }
}

proof fn lemma_distinct_keys(groups: Seq<GroupView>, i: int, j: int)
    requires
        keys_ascend(groups),
        0 <= i < groups.len(),
        0 <= j < groups.len(),
        groups[i].key == groups[j].key,
    ensures
        i == j,
{
    lex_le_reflexive(groups[i].key);
}

proof fn lemma_joins_group(
    g: Seq<GroupView>,
    entries: Seq<SuperfileEntryView>,
    strategy: PartitionStrategyView,
    values: Seq<BoundaryView>,
    e: SuperfileEntryView,
    p: int,
)
    requires
        groups_of(g, entries, strategy, values),
        0 <= p < g.len(),
        partition_key_of(e, strategy, values) == Some(g[p].key),
    ensures
        groups_of(
            g.update(p, GroupView { key: g[p].key, superfiles: g[p].superfiles.push(e) }),
            entries.push(e),
            strategy,
            values,
        ),
{
    let h = g.update(p, GroupView { key: g[p].key, superfiles: g[p].superfiles.push(e) });
    let all = entries.push(e);
    assert(all.drop_last() =~= entries);
    assert forall|i: int| 0 <= i < h.len() implies (#[trigger] h[i]).superfiles == members(
        all,
        strategy,
        values,
        h[i].key,
    ) && h[i].superfiles.len() > 0 by {
        assert(g[i].superfiles == members(entries, strategy, values, g[i].key));
        if i != p {
            if g[i].key == g[p].key {
                lemma_distinct_keys(g, i, p);
            }
        }
    }
    assert forall|i: int, j: int| 0 <= i < j < h.len() implies lex_lt(
        (#[trigger] h[i]).key,
        (#[trigger] h[j]).key,
    ) by {
        assert(lex_lt(g[i].key, g[j].key));
    }
    assert forall|k: int| 0 <= k < all.len() implies partition_key_of(
        #[trigger] all[k],
        strategy,
        values,
    ) is Some && has_group(h, partition_key_of(all[k], strategy, values)->0) by {
        if k < entries.len() {
            assert(all[k] == entries[k]);
            let key = partition_key_of(entries[k], strategy, values)->0;
            let i = choose|i: int| 0 <= i < g.len() && (#[trigger] g[i]).key == key;
            assert(h[i].key == key);
        } else {
            assert(h[p].key == partition_key_of(e, strategy, values)->0);
        }
    }
}

proof fn lemma_opens_group(
    g: Seq<GroupView>,
    entries: Seq<SuperfileEntryView>,
    strategy: PartitionStrategyView,
    values: Seq<BoundaryView>,
    e: SuperfileEntryView,
    key: Seq<u8>,
    p: int,
)
    requires
        groups_of(g, entries, strategy, values),
        0 <= p <= g.len(),
        partition_key_of(e, strategy, values) == Some(key),
        forall|i: int| 0 <= i < p ==> lex_lt((#[trigger] g[i]).key, key),
        forall|i: int| p <= i < g.len() ==> lex_lt(key, (#[trigger] g[i]).key),
    ensures
        groups_of(
            g.insert(p, GroupView { key, superfiles: seq![e] }),
            entries.push(e),
            strategy,
            values,
        ),
{
    let h = g.insert(p, GroupView { key, superfiles: seq![e] });
    let all = entries.push(e);
    assert(all.drop_last() =~= entries);
    lex_le_reflexive(key);
    if members(entries, strategy, values, key).len() > 0 {
        lemma_members_come_from(entries, strategy, values, key);
        let k = choose|k: int|
            0 <= k < entries.len() && partition_key_of(#[trigger] entries[k], strategy, values) == Some(key);
        let i = choose|i: int| 0 <= i < g.len() && (#[trigger] g[i]).key == key;
        assert(false);
    }
    assert(members(all, strategy, values, key) =~= seq![e]);
    assert forall|i: int| 0 <= i < h.len() implies (#[trigger] h[i]).superfiles == members(
        all,
        strategy,
        values,
        h[i].key,
    ) && h[i].superfiles.len() > 0 by {
        if i < p {
            assert(h[i] == g[i]);
            assert(g[i].key != key);
        } else if i > p {
            assert(h[i] == g[i - 1]);
            assert(g[i - 1].key != key);
        }
    }
    assert forall|i: int, j: int| 0 <= i < j < h.len() implies lex_lt(
        (#[trigger] h[i]).key,
        (#[trigger] h[j]).key,
    ) by {
        if j < p {
            assert(lex_lt(g[i].key, g[j].key));
        } else if j == p {
            assert(h[i] == g[i]);
        } else if i < p {
            assert(h[j] == g[j - 1] && h[i] == g[i]);
            assert(lex_lt(g[i].key, g[j - 1].key));
        } else if i == p {
            assert(h[j] == g[j - 1]);
        } else {
            assert(h[j] == g[j - 1] && h[i] == g[i - 1]);
            assert(lex_lt(g[i - 1].key, g[j - 1].key));
        }
    }
    assert forall|k: int| 0 <= k < all.len() implies partition_key_of(
        #[trigger] all[k],
        strategy,
        values,
    ) is Some && has_group(h, partition_key_of(all[k], strategy, values)->0) by {
        if k < entries.len() {
            assert(all[k] == entries[k]);
            let other = partition_key_of(entries[k], strategy, values)->0;
            let i = choose|i: int| 0 <= i < g.len() && (#[trigger] g[i]).key == other;
            if i < p {
                assert(h[i].key == other);
            } else {
                assert(h[i + 1].key == other);
            }
        } else {
            assert(h[p].key == key);
        }
    }
}

proof fn lemma_unassigned_prefix(
    entries: Seq<SuperfileEntryView>,
    strategy: PartitionStrategyView,
    values: Seq<BoundaryView>,
    n: int,
)
    requires
        0 <= n <= entries.len(),
        first_unassigned(entries.take(n), strategy, values) is Some,
    ensures
        first_unassigned(entries, strategy, values) == first_unassigned(entries.take(n), strategy, values),
    decreases entries.len() - n,
{
    if n < entries.len() {
        assert(entries.take(n + 1).drop_last() =~= entries.take(n));
        lemma_unassigned_prefix(entries, strategy, values, n + 1);
    } else {
        assert(entries.take(n) =~= entries);
    }
}

/// Where a group of the partition stands, or is to stand.
fn group_place(groups: &Vec<Group>, key: &[u8]) -> (p: usize)
    requires
        keys_ascend(group_views(groups@)),
    ensures
        p <= groups@.len(),
        forall|i: int| 0 <= i < p ==> lex_lt((#[trigger] group_views(groups@)[i]).key, key@),
        p < groups@.len() && groups@[p as int].key@ != key@ ==> forall|i: int|
            p <= i < groups@.len() ==> lex_lt(key@, (#[trigger] group_views(groups@)[i]).key),
{
    let ghost g = group_views(groups@);
    let mut p: usize = 0;
    while p < groups.len() && !bytes_le(key, groups[p].key.as_slice())
        invariant
            p <= groups@.len(),
            g == group_views(groups@),
            forall|i: int| 0 <= i < p ==> lex_lt((#[trigger] g[i]).key, key@),
        decreases groups@.len() - p,
    {
        p = p + 1;
    }
    proof {
        if p < groups@.len() && g[p as int].key != key@ {
            assert forall|i: int| p <= i < g.len() implies lex_lt(key@, (#[trigger] g[i]).key) by {
                if lex_le(g[i].key, key@) {
                    lex_le_transitive(g[i].key, key@, g[p as int].key);
                    if i == p {
                        lex_le_antisymmetric(g[i].key, key@);
                    } else {
                        assert(lex_lt(g[p as int].key, g[i].key));
                    }
                }
            }
        }
    }
    p
}

/// A superfile with the partition that it lies in.
pub open spec fn stamped(
    e: SuperfileEntryView,
    strategy: PartitionStrategyView,
    values: Seq<BoundaryView>,
) -> SuperfileEntryView {
    SuperfileEntryView { partition_key: partition_key_of(e, strategy, values)->0, ..e }
}

/// Superfiles with the partitions that they lie in.
pub open spec fn all_stamped(
    s: Seq<SuperfileEntryView>,
    strategy: PartitionStrategyView,
    values: Seq<BoundaryView>,
) -> Seq<SuperfileEntryView> {
    Seq::new(s.len(), |i: int| stamped(s[i], strategy, values))
}

/// The superfiles with the partitions that they lie in. The first that lies in
/// none is the error.
pub fn stamp_partitions(
    entries: &[Arc<SuperfileEntry>],
    strategy: &PartitionStrategy,
    values: &[Boundary],
) -> (r: Result<Vec<Arc<SuperfileEntry>>, CommitError>)
    ensures
        match r {
            Ok(out) => first_unassigned(
                entry_views(entries@),
                strategy@,
                boundary_views(values@),
            ) is None && entry_views(out@) == all_stamped(
                entry_views(entries@),
                strategy@,
                boundary_views(values@),
            ),
            Err(e) => e matches CommitError::SuperfileSpansPartition { detail }
                && first_unassigned(entry_views(entries@), strategy@, boundary_views(values@))
                == Some(detail@),
        },
{
    let ghost all = entry_views(entries@);
    let ghost b = boundary_views(values@);
    let mut out: Vec<Arc<SuperfileEntry>> = Vec::new();
    let mut n: usize = 0;
    assert(all.take(0) =~= Seq::empty());
    assert(entry_views(out@) =~= all_stamped(all.take(0), strategy@, b));
    while n < entries.len()
        invariant
            n <= entries@.len(),
            all == entry_views(entries@),
            b == boundary_views(values@),
            first_unassigned(all.take(n as int), strategy@, b) is None,
            entry_views(out@) == all_stamped(all.take(n as int), strategy@, b),
        decreases entries@.len() - n,
    {
        let ghost had = entry_views(out@);
        proof {
            assert(all.take(n as int + 1).drop_last() =~= all.take(n as int));
            assert(all.take(n as int + 1).last() == entries@[n as int]@);
        }
        match assign_partition(&entries[n], strategy, values) {
            Ok(key) => {
                let bytes = stored_partition_key(strategy, &key);
                let entry = Arc::new(entries[n].in_partition(bytes));
                out.push(entry);
                assert(entry_views(out@) =~= had.push(entry@));
                assert(entry_views(out@) =~= all_stamped(all.take(n as int + 1), strategy@, b));
            },
            Err(e) => {
                proof {
                    lemma_unassigned_prefix(all, strategy@, b, n as int + 1);
                }
                return Err(e);
            },
        }
        n = n + 1;
    }
    assert(all.take(n as int) =~= all);
    Ok(out)
}

/// The superfiles by partition. The first that lies in no partition is the
/// error.
pub fn group_by_partition(
    entries: &[Arc<SuperfileEntry>],
    strategy: &PartitionStrategy,
    values: &[Boundary],
) -> (r: Result<Vec<Group>, CommitError>)
    ensures
        match r {
            Ok(groups) => first_unassigned(entry_views(entries@), strategy@, boundary_views(values@)) is None && groups_of(
                group_views(groups@),
                entry_views(entries@),
                strategy@,
                boundary_views(values@),
            ),
            Err(e) => e matches CommitError::SuperfileSpansPartition { detail }
                && first_unassigned(entry_views(entries@), strategy@, boundary_views(values@)) == Some(detail@),
        },
{
    let ghost all = entry_views(entries@);
    let mut groups: Vec<Group> = Vec::new();
    let mut n: usize = 0;
    proof {
        assert(all.take(0) =~= Seq::empty());
    }
    while n < entries.len()
        invariant
            n <= entries@.len(),
            all == entry_views(entries@),
            first_unassigned(all.take(n as int), strategy@, boundary_views(values@)) is None,
            groups_of(group_views(groups@), all.take(n as int), strategy@, boundary_views(values@)),
        decreases entries@.len() - n,
    {
        let ghost before = all.take(n as int);
        let ghost g = group_views(groups@);
        proof {
            assert(all.take(n as int + 1) =~= before.push(all[n as int]));
            assert(all.take(n as int + 1).drop_last() =~= before);
            assert(all[n as int] == entries@[n as int]@);
        }
        let key = match assign_partition(&entries[n], strategy, values) {
            Ok(k) => k,
            Err(e) => {
                proof {
                    lemma_unassigned_prefix(all, strategy@, boundary_views(values@), n as int + 1);
                }
                return Err(e);
            },
        };
        let bytes = stored_partition_key(strategy, &key);
        let entry = share(&entries[n]);
        let p: usize = group_place(&groups, bytes.as_slice());
        if p < groups.len() && bytes_eq(groups[p].key.as_slice(), bytes.as_slice()) {
            let mut group = groups.remove(p);
            let ghost had = group@;
            group.superfiles.push(entry);
            groups.insert(p, group);
            proof {
                lemma_joins_group(g, before, strategy@, boundary_views(values@), all[n as int], p as int);
                assert(entry_views(group.superfiles@) =~= had.superfiles.push(all[n as int]));
                assert(group_views(groups@) =~= g.update(
                    p as int,
                    GroupView {
                        key: g[p as int].key,
                        superfiles: g[p as int].superfiles.push(all[n as int]),
                    },
                ));
            }
        } else {
            let mut superfiles: Vec<Arc<SuperfileEntry>> = Vec::new();
            superfiles.push(entry);
            let group = Group { key: bytes, superfiles };
            groups.insert(p, group);
            proof {
                lemma_opens_group(g, before, strategy@, boundary_views(values@), all[n as int], bytes@, p as int);
                assert(entry_views(superfiles@) =~= seq![all[n as int]]);
                assert(group_views(groups@) =~= g.insert(
                    p as int,
                    GroupView { key: bytes@, superfiles: seq![all[n as int]] },
                ));
            }
        }
        n = n + 1;
    }
    proof {
        assert(all.take(n as int) =~= all);
    }
    Ok(groups)
}

// ---------------------------------------------------------------- laws

/// A superfile that names its partition lies in it as before.
pub proof fn stamped_lies_where_it_did(
    e: SuperfileEntryView,
    strategy: PartitionStrategyView,
    values: Seq<BoundaryView>,
)
    ensures
        partition_of(stamped(e, strategy, values), strategy, values) == partition_of(
            e,
            strategy,
            values,
        ),
{
}

proof fn lemma_members_lie_there(
    entries: Seq<SuperfileEntryView>,
    strategy: PartitionStrategyView,
    values: Seq<BoundaryView>,
    key: Seq<u8>,
    k: int,
)
    requires
        0 <= k < members(entries, strategy, values, key).len(),
    ensures
        partition_key_of(members(entries, strategy, values, key)[k], strategy, values) == Some(key),
        entries.contains(members(entries, strategy, values, key)[k]),
    decreases entries.len(),
{
    if entries.len() > 0 {
        let rest = entries.drop_last();
        if k < members(rest, strategy, values, key).len() {
            lemma_members_lie_there(rest, strategy, values, key, k);
            let m = members(rest, strategy, values, key)[k];
            let j = choose|j: int| 0 <= j < rest.len() && rest[j] == m;
            assert(entries[j] == m);
        } else {
            assert(entries[entries.len() - 1] == entries.last());
        }
    }
}

/// The superfiles of a group name its partition.
pub proof fn grouped_superfiles_name_their_partition(
    groups: Seq<GroupView>,
    entries: Seq<SuperfileEntryView>,
    strategy: PartitionStrategyView,
    values: Seq<BoundaryView>,
    i: int,
    k: int,
)
    requires
        groups_of(groups, all_stamped(entries, strategy, values), strategy, values),
        0 <= i < groups.len(),
        0 <= k < groups[i].superfiles.len(),
    ensures
        groups[i].superfiles[k].partition_key == groups[i].key,
{
    let all = all_stamped(entries, strategy, values);
    lemma_members_lie_there(all, strategy, values, groups[i].key, k);
    let e = groups[i].superfiles[k];
    let j = choose|j: int| 0 <= j < all.len() && all[j] == e;
    assert(e == stamped(entries[j], strategy, values));
    stamped_lies_where_it_did(entries[j], strategy, values);
}

/// How often a superfile occurs in a list.
pub open spec fn occurrences(s: Seq<SuperfileEntryView>, e: SuperfileEntryView) -> nat
    decreases s.len(),
{
    if s.len() == 0 {
        0
    } else {
        occurrences(s.drop_last(), e) + if s.last() == e {
            1nat
        } else {
            0nat
        }
    }
}

/// How often a superfile occurs in groups.
pub open spec fn grouped(groups: Seq<GroupView>, e: SuperfileEntryView) -> nat
    decreases groups.len(),
{
    if groups.len() == 0 {
        0
    } else {
        grouped(groups.drop_last(), e) + occurrences(groups.last().superfiles, e)
    }
}

proof fn lemma_members_count(
    entries: Seq<SuperfileEntryView>,
    strategy: PartitionStrategyView,
    values: Seq<BoundaryView>,
    key: Seq<u8>,
    e: SuperfileEntryView,
)
    ensures
        occurrences(members(entries, strategy, values, key), e) == if partition_key_of(e, strategy, values) == Some(
            key,
        ) {
            occurrences(entries, e)
        } else {
            0
        },
    decreases entries.len(),
{
    if entries.len() > 0 {
        lemma_members_count(entries.drop_last(), strategy, values, key, e);
        let rest = members(entries.drop_last(), strategy, values, key);
        assert(rest.push(entries.last()).drop_last() =~= rest);
    }
}

proof fn lemma_occurs_somewhere(s: Seq<SuperfileEntryView>, e: SuperfileEntryView)
    requires
        occurrences(s, e) > 0,
    ensures
        exists|k: int| 0 <= k < s.len() && #[trigger] s[k] == e,
    decreases s.len(),
{
    if s.last() == e {
        assert(s[s.len() - 1] == e);
    } else {
        lemma_occurs_somewhere(s.drop_last(), e);
        let k = choose|k: int| 0 <= k < s.drop_last().len() && #[trigger] s.drop_last()[k] == e;
        assert(s[k] == e);
    }
}

proof fn lemma_grouped_prefix(
    groups: Seq<GroupView>,
    entries: Seq<SuperfileEntryView>,
    strategy: PartitionStrategyView,
    values: Seq<BoundaryView>,
    e: SuperfileEntryView,
    n: int,
)
    requires
        groups_of(groups, entries, strategy, values),
        0 <= n <= groups.len(),
        partition_key_of(e, strategy, values) is Some,
    ensures
        grouped(groups.take(n), e) == if has_group(
            groups.take(n),
            partition_key_of(e, strategy, values)->0,
        ) {
            occurrences(entries, e)
        } else {
            0
        },
    decreases n,
{
    let key = partition_key_of(e, strategy, values)->0;
    if n > 0 {
        lemma_grouped_prefix(groups, entries, strategy, values, e, n - 1);
        let a = groups.take(n - 1);
        let b = groups.take(n);
        assert(b.drop_last() =~= a);
        assert(b.last() == groups[n - 1]);
        lemma_members_count(entries, strategy, values, groups[n - 1].key, e);
        if groups[n - 1].key == key {
            assert(b[n - 1].key == key);
            if has_group(a, key) {
                let i = choose|i: int| 0 <= i < a.len() && (#[trigger] a[i]).key == key;
                lemma_distinct_keys(groups, i, n - 1);
            }
        } else {
            if has_group(a, key) {
                let i = choose|i: int| 0 <= i < a.len() && (#[trigger] a[i]).key == key;
                assert(b[i].key == key);
            }
            if has_group(b, key) {
                let i = choose|i: int| 0 <= i < b.len() && (#[trigger] b[i]).key == key;
                assert(a[i].key == key);
            }
        }
    }
}

/// Grouping loses no superfile and doubles none.
pub proof fn grouping_keeps_superfiles(
    groups: Seq<GroupView>,
    entries: Seq<SuperfileEntryView>,
    strategy: PartitionStrategyView,
    values: Seq<BoundaryView>,
    e: SuperfileEntryView,
)
    requires
        groups_of(groups, entries, strategy, values),
    ensures
        grouped(groups, e) == occurrences(entries, e),
{
    assert(groups.take(groups.len() as int) =~= groups);
    if partition_key_of(e, strategy, values) is Some {
        lemma_grouped_prefix(groups, entries, strategy, values, e, groups.len() as int);
        if occurrences(entries, e) > 0 {
            lemma_occurs_somewhere(entries, e);
        }
    } else {
        if occurrences(entries, e) > 0 {
            lemma_occurs_somewhere(entries, e);
        }
        lemma_no_key_no_group(groups, entries, strategy, values, e, groups.len() as int);
    }
}

proof fn lemma_no_key_no_group(
    groups: Seq<GroupView>,
    entries: Seq<SuperfileEntryView>,
    strategy: PartitionStrategyView,
    values: Seq<BoundaryView>,
    e: SuperfileEntryView,
    n: int,
)
    requires
        groups_of(groups, entries, strategy, values),
        0 <= n <= groups.len(),
        partition_key_of(e, strategy, values) is None,
    ensures
        grouped(groups.take(n), e) == 0,
    decreases n,
{
    if n > 0 {
        lemma_no_key_no_group(groups, entries, strategy, values, e, n - 1);
        assert(groups.take(n).drop_last() =~= groups.take(n - 1));
        assert(groups.take(n).last() == groups[n - 1]);
        lemma_members_count(entries, strategy, values, groups[n - 1].key, e);
    }
}

proof fn lemma_members_filtered(
    entries: Seq<SuperfileEntryView>,
    strategy: PartitionStrategyView,
    values: Seq<BoundaryView>,
    key: Seq<u8>,
    k: PartitionKey,
)
    requires
        stored_key(strategy, k) == key,
        key_parsed(key, strategy) == Ok::<PartitionKey, Seq<char>>(k),
    ensures
        members(entries, strategy, values, key) == entries.filter(
            |e: SuperfileEntryView| partition_of(e, strategy, values) == key_parsed(key, strategy),
        ),
    decreases entries.len(),
{
    reveal(Seq::filter);
    if entries.len() > 0 {
        lemma_members_filtered(entries.drop_last(), strategy, values, key, k);
        let e = entries.last();
        if partition_of(e, strategy, values) is Ok {
            stored_key_round_trip(e, strategy, values);
        }
    } else {
        assert(members(entries, strategy, values, key) =~= entries);
    }
}

/// A group holds just the superfiles that are assigned the partition which its
/// key reads as, in the order in which they were committed.
pub proof fn groups_hold_their_partition(
    groups: Seq<GroupView>,
    entries: Seq<SuperfileEntryView>,
    strategy: PartitionStrategyView,
    values: Seq<BoundaryView>,
    i: int,
)
    requires
        groups_of(groups, entries, strategy, values),
        0 <= i < groups.len(),
    ensures
        key_parsed(groups[i].key, strategy) is Ok,
        groups[i].superfiles == entries.filter(
            |e: SuperfileEntryView|
                partition_of(e, strategy, values) == key_parsed(groups[i].key, strategy),
        ),
        groups[i].superfiles.len() > 0,
        forall|j: int|
            0 <= j < groups.len() && j != i ==> (#[trigger] groups[j]).key != groups[i].key,
{
    let key = groups[i].key;
    lemma_members_lie_there(entries, strategy, values, key, 0);
    let m = members(entries, strategy, values, key)[0];
    stored_key_round_trip(m, strategy, values);
    lemma_members_filtered(entries, strategy, values, key, partition_of(m, strategy, values)->Ok_0);
    assert forall|j: int| 0 <= j < groups.len() && j != i implies (#[trigger] groups[j]).key
        != groups[i].key by {
        if groups[j].key == groups[i].key {
            if j < i {
                lemma_distinct_keys(groups, j, i);
            } else {
                lemma_distinct_keys(groups, i, j);
            }
        }
    }
}

/// A superfile that names its partition is otherwise as it was, and what it
/// names reads as the partition that it is assigned.
pub proof fn stamps_read_as_the_partition(
    e: SuperfileEntryView,
    strategy: PartitionStrategyView,
    values: Seq<BoundaryView>,
)
    requires
        partition_of(e, strategy, values) is Ok,
    ensures
        key_parsed(stamped(e, strategy, values).partition_key, strategy) == partition_of(
            e,
            strategy,
            values,
        ),
        e == (SuperfileEntryView {
            partition_key: e.partition_key,
            ..stamped(e, strategy, values)
        }),
{
    stored_key_round_trip(e, strategy, values);
}

/// That a text says why a superfile lies in no partition.
pub open spec fn is_why(
    e: SuperfileEntryView,
    strategy: PartitionStrategyView,
    values: Seq<BoundaryView>,
    m: Seq<char>,
) -> bool {
    partition_of(e, strategy, values) matches Err(x) && x == m
}

/// The superfiles that lie in no partition are found: the first of them says
/// why.
pub proof fn the_first_unassigned_is_told(
    entries: Seq<SuperfileEntryView>,
    strategy: PartitionStrategyView,
    values: Seq<BoundaryView>,
)
    ensures
        first_unassigned(entries, strategy, values) is None <==> forall|k: int|
            0 <= k < entries.len() ==> partition_of(#[trigger] entries[k], strategy, values) is Ok,
        first_unassigned(entries, strategy, values) matches Some(m) ==> exists|k: int|
            0 <= k < entries.len() && is_why(#[trigger] entries[k], strategy, values, m)
                && forall|j: int|
                0 <= j < k ==> partition_of(#[trigger] entries[j], strategy, values) is Ok,
    decreases entries.len(),
{
    if entries.len() > 0 {
        let rest = entries.drop_last();
        let n = entries.len() - 1;
        the_first_unassigned_is_told(rest, strategy, values);
        assert(entries[n] == entries.last());
        assert forall|k: int| 0 <= k < n implies #[trigger] entries[k] == rest[k] by {}
        match first_unassigned(rest, strategy, values) {
            Some(m) => {
                let k = choose|k: int|
                    0 <= k < rest.len() && is_why(#[trigger] rest[k], strategy, values, m)
                        && forall|j: int|
                        0 <= j < k ==> partition_of(#[trigger] rest[j], strategy, values) is Ok;
                assert(is_why(entries[k], strategy, values, m));
                assert forall|j: int| 0 <= j < k implies partition_of(
                    #[trigger] entries[j],
                    strategy,
                    values,
                ) is Ok by {
                    assert(rest[j] == entries[j]);
                }
            },
            None => {
                assert forall|k: int| 0 <= k < n implies partition_of(
                    #[trigger] entries[k],
                    strategy,
                    values,
                ) is Ok by {
                    assert(rest[k] == entries[k]);
                }
                if partition_of(entries[n], strategy, values) is Err {
                    let m = partition_of(entries[n], strategy, values)->Err_0;
                    assert(is_why(entries[n], strategy, values, m));
                }
            },
        }
    }
}

} // verus!
