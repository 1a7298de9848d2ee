//! The spheres of the vector columns of superfiles, column by column.

use std::sync::Arc;
use vstd::prelude::*;

use crate::column_map::{lemma_lookup_some, lookup};
use crate::manifest::entry::{
    SuperfileEntry, SuperfileEntryView, VectorSummary, VectorSummaryView,
};
use crate::manifest::part::entry_views;
use crate::text::text_eq;

verus! {

/// The spheres of a column, superfile by superfile.
pub open spec fn spheres_of(s: Seq<SuperfileEntryView>, col: Seq<char>) -> Seq<VectorSummaryView>
    decreases s.len(),
{
    if s.len() == 0 {
        Seq::empty()
    } else {
        let head = spheres_of(s.drop_last(), col);
        match lookup(s.last().vector_summary, col) {
            Some(v) => head.push(v),
            None => head,
        }
    }
}

/// That spheres are there, and their centres have as many coordinates as each
/// other.
pub open spec fn comparable(s: Seq<VectorSummaryView>) -> bool {
    s.len() > 0 && forall|i: int|
        0 <= i < s.len() ==> (#[trigger] s[i]).centroid.len() == s[0].centroid.len()
}

/// That every superfile has a sphere of the column, and the spheres can be
/// compared.
pub open spec fn groupable(s: Seq<SuperfileEntryView>, col: Seq<char>) -> bool {
    spheres_of(s, col).len() == s.len() && comparable(spheres_of(s, col))
}

/// The spheres of one column.
#[derive(Debug)]
pub struct SphereGroup {
    pub column: String,
    pub spheres: Vec<VectorSummary>,
}

/// The spheres that a list holds.
pub open spec fn sphere_views(s: Seq<VectorSummary>) -> Seq<VectorSummaryView> {
    Seq::new(s.len(), |i: int| s[i]@)
}

/// That there is a group of the column.
pub open spec fn has_sphere_group(groups: Seq<SphereGroup>, col: Seq<char>) -> bool {
    exists|i: int| 0 <= i < groups.len() && (#[trigger] groups[i]).column@ == col
}

fn collect_spheres(superfiles: &[Arc<SuperfileEntry>], col: &str) -> (r: Vec<VectorSummary>)
    ensures
        sphere_views(r@) == spheres_of(entry_views(superfiles@), col@),
{
    let ghost v = entry_views(superfiles@);
    let mut out: Vec<VectorSummary> = Vec::new();
    let mut i: usize = 0;
    assert(v.take(0) =~= Seq::empty());
    assert(sphere_views(out@) =~= Seq::empty());
    while i < superfiles.len()
        invariant
            i <= superfiles@.len(),
            v == entry_views(superfiles@),
            sphere_views(out@) == spheres_of(v.take(i as int), col@),
        decreases superfiles@.len() - i,
    {
        let ghost before = sphere_views(out@);
        proof {
            assert(v.take(i as int + 1).drop_last() =~= v.take(i as int));
            assert(v.take(i as int + 1).last() == superfiles@[i as int]@);
        }
        match superfiles[i].vector_summary.get(col) {
            Some(s) => {
                let copy = s.clone();
                out.push(copy);
                assert(sphere_views(out@) =~= before.push(copy@));
            },
            None => {},
        }
        i = i + 1;
    }
    assert(v.take(i as int) =~= v);
    out
}

fn are_comparable(s: &Vec<VectorSummary>) -> (r: bool)
    ensures
        r == comparable(sphere_views(s@)),
{
    let ghost v = sphere_views(s@);
    if s.len() == 0 {
        return false;
    }
    let dim: usize = s[0].centroid.len();
    assert(v[0].centroid.len() == dim);
    let mut i: usize = 0;
    while i < s.len()
        invariant
            i <= s@.len(),
            v == sphere_views(s@),
            s@.len() > 0,
            v[0].centroid.len() == dim,
            forall|k: int| 0 <= k < i ==> (#[trigger] v[k]).centroid.len() == dim,
        decreases s@.len() - i,
    {
        assert(v[i as int] == s@[i as int]@);
        if s[i].centroid.len() != dim {
            assert(v[i as int].centroid.len() != v[0].centroid.len());
            return false;
        }
        i = i + 1;
    }
    true
}

fn seen(names: &Vec<String>, name: &str) -> (r: bool)
    ensures
        r == exists|i: int| 0 <= i < names@.len() && (#[trigger] names@[i])@ == name@,
{
    let mut i: usize = 0;
    while i < names.len()
        invariant
            i <= names@.len(),
            forall|k: int| 0 <= k < i ==> (#[trigger] names@[k])@ != name@,
        decreases names@.len() - i,
    {
        if text_eq(names[i].as_str(), name) {
            assert(names@[i as int]@ == name@);
            return true;
        }
        i = i + 1;
    }
    false
}

spec fn is_seen(names: Seq<String>, name: Seq<char>) -> bool {
    exists|i: int| 0 <= i < names.len() && (#[trigger] names[i])@ == name
}

spec fn groups_sound(
    groups: Seq<SphereGroup>,
    names: Seq<String>,
    v: Seq<SuperfileEntryView>,
) -> bool {
    &&& forall|i: int, j: int|
        0 <= i < j < groups.len() ==> (#[trigger] groups[i]).column@ != (
        #[trigger] groups[j]).column@
    &&& forall|i: int|
        0 <= i < groups.len() ==> sphere_views((#[trigger] groups[i]).spheres@) == spheres_of(
            v,
            groups[i].column@,
        ) && groupable(v, groups[i].column@) && is_seen(names, groups[i].column@)
    &&& forall|i: int|
        0 <= i < names.len() && groupable(v, (#[trigger] names[i])@)
            ==> has_sphere_group(groups, names[i]@)
}

proof fn lemma_group_added(
    groups: Seq<SphereGroup>,
    names: Seq<String>,
    v: Seq<SuperfileEntryView>,
    g: Option<SphereGroup>,
    name: String,
)
    requires
        groups_sound(groups, names, v),
        !is_seen(names, name@),
        match g {
            Some(x) => x.column@ == name@ && sphere_views(x.spheres@) == spheres_of(v, name@)
                && groupable(v, name@),
            None => !groupable(v, name@),
        },
    ensures
        groups_sound(
            match g {
                Some(x) => groups.push(x),
                None => groups,
            },
            names.push(name),
            v,
        ),
{
    let after = match g {
        Some(x) => groups.push(x),
        None => groups,
    };
    let all = names.push(name);
    assert(all[names.len() as int]@ == name@);
    assert forall|c: Seq<char>| is_seen(names, c) implies is_seen(all, c) by {
        let i = choose|i: int| 0 <= i < names.len() && (#[trigger] names[i])@ == c;
        assert(all[i]@ == c);
    }
    assert forall|i: int, j: int| 0 <= i < j < after.len() implies (#[trigger] after[i]).column@
        != (#[trigger] after[j]).column@ by {
        if j == groups.len() {
            assert(is_seen(names, groups[i].column@));
        }
    }
    assert forall|i: int| 0 <= i < after.len() implies sphere_views((#[trigger] after[i]).spheres@)
        == spheres_of(v, after[i].column@) && groupable(v, after[i].column@)
        && is_seen(all, after[i].column@) by {
        if i < groups.len() {
            assert(after[i] == groups[i]);
        }
    }
    assert forall|i: int|
        0 <= i < all.len() && groupable(v, (#[trigger] all[i])@) implies has_sphere_group(after, all[i]@) by {
        if i < names.len() {
            assert(all[i] == names[i]);
            let k = choose|k: int|
                0 <= k < groups.len() && (#[trigger] groups[k]).column@ == names[i]@;
            assert(after[k].column@ == names[i]@);
        } else {
            assert(after[groups.len() as int].column@ == name@);
        }
    }
}

/// The spheres of every vector column, for the one sphere around them to be
/// computed. A column that some superfile has no sphere of, or whose spheres
/// cannot be compared, is left out.
pub fn vector_groups(superfiles: &[Arc<SuperfileEntry>]) -> (r: Vec<SphereGroup>)
    ensures
        forall|i: int, j: int|
            0 <= i < j < r@.len() ==> (#[trigger] r@[i]).column@ != (#[trigger] r@[j]).column@,
        forall|i: int|
            0 <= i < r@.len() ==> sphere_views((#[trigger] r@[i]).spheres@) == spheres_of(
                entry_views(superfiles@),
                r@[i].column@,
            ) && groupable(entry_views(superfiles@), r@[i].column@),
        forall|k: int, c: Seq<char>|
            0 <= k < superfiles@.len() && lookup(
                (#[trigger] superfiles@[k])@.vector_summary,
                c,
            ) is Some && #[trigger] groupable(entry_views(superfiles@), c)
                ==> has_sphere_group(r@, c),
{
    let ghost v = entry_views(superfiles@);
    let mut groups: Vec<SphereGroup> = Vec::new();
    let mut names: Vec<String> = Vec::new();
    let mut i: usize = 0;
    while i < superfiles.len()
        invariant
            i <= superfiles@.len(),
            v == entry_views(superfiles@),
            groups_sound(groups@, names@, v),
            forall|k: int, c: Seq<char>|
                0 <= k < i && #[trigger] lookup(superfiles@[k]@.vector_summary, c) is Some
                    ==> is_seen(names@, c),
        decreases superfiles@.len() - i,
    {
        let cols = &superfiles[i].vector_summary;
        let n: usize = cols.len();
        let mut j: usize = 0;
        while j < n
            invariant
                n == cols@.len(),
                j <= n,
                v == entry_views(superfiles@),
                groups_sound(groups@, names@, v),
                forall|k: int, c: Seq<char>|
                    0 <= k < i && #[trigger] lookup(superfiles@[k]@.vector_summary, c) is Some
                        ==> is_seen(names@, c),
                forall|k: int| 0 <= k < j ==> is_seen(names@, (#[trigger] cols@[k]).0),
            decreases n - j,
        {
            let key = cols.key_at(j).clone();
            if !seen(&names, key.as_str()) {
                let ghost old_names = names@;
                let ghost old_groups = groups@;
                let spheres = collect_spheres(superfiles, key.as_str());
                assert(sphere_views(spheres@).len() == spheres@.len() && v.len() == superfiles@.len());
                if spheres.len() == superfiles.len() && are_comparable(&spheres) {
                    let g = SphereGroup { column: key.clone(), spheres };
                    groups.push(g);
                    proof {
                        lemma_group_added(old_groups, old_names, v, Some(g), key);
                    }
                } else {
                    proof {
                        lemma_group_added(old_groups, old_names, v, None, key);
                    }
                }
                names.push(key);
                proof {
                    assert forall|c: Seq<char>| is_seen(old_names, c) implies is_seen(
                        names@,
                        c,
                    ) by {
                        let k = choose|k: int|
                            0 <= k < old_names.len() && (#[trigger] old_names[k])@ == c;
                        assert(names@[k]@ == c);
                    }
                    assert(names@[old_names.len() as int]@ == key@);
                }
            }
            j = j + 1;
        }
        proof {
            assert forall|k: int, c: Seq<char>|
                0 <= k < i + 1 && #[trigger] lookup(
                    superfiles@[k]@.vector_summary,
                    c,
                ) is Some implies is_seen(names@, c) by {
                if k == i {
                    lemma_lookup_some(cols@, c);
                    let p = choose|p: int| 0 <= p < cols@.len() && (#[trigger] cols@[p]).0 == c;
                    assert(is_seen(names@, cols@[p].0));
                }
            }
        }
        i = i + 1;
    }
    proof {
        assert forall|k: int, c: Seq<char>|
            0 <= k < superfiles@.len() && lookup(
                (#[trigger] superfiles@[k])@.vector_summary,
                c,
            ) is Some && #[trigger] groupable(v, c) implies has_sphere_group(
            groups@,
            c,
        ) by {
            assert(is_seen(names@, c));
            let p = choose|p: int| 0 <= p < names@.len() && (#[trigger] names@[p])@ == c;
            assert(groupable(v, names@[p]@));
        }
    }
    groups
}

/// The spheres of a column are those of the superfiles that have one, in their
/// order.
pub proof fn spheres_are_those_of_the_superfiles(s: Seq<SuperfileEntryView>, col: Seq<char>)
    ensures
        spheres_of(s, col) == s.filter(
            |e: SuperfileEntryView| lookup(e.vector_summary, col) is Some,
        ).map_values(|e: SuperfileEntryView| lookup(e.vector_summary, col)->0),
    decreases s.len(),
{
    reveal(Seq::filter);
    let there = |e: SuperfileEntryView| lookup(e.vector_summary, col) is Some;
    let sphere = |e: SuperfileEntryView| lookup(e.vector_summary, col)->0;
    if s.len() > 0 {
        spheres_are_those_of_the_superfiles(s.drop_last(), col);
        let head = s.drop_last().filter(there);
        if there(s.last()) {
            assert(head.push(s.last()).map_values(sphere) =~= head.map_values(sphere).push(
                sphere(s.last()),
            ));
        }
    }
    assert(spheres_of(s, col) =~= s.filter(there).map_values(sphere));
}

proof fn lemma_all_spheres(s: Seq<SuperfileEntryView>, col: Seq<char>)
    ensures
        spheres_of(s, col).len() <= s.len(),
        spheres_of(s, col).len() == s.len() <==> forall|k: int|
            0 <= k < s.len() ==> lookup((#[trigger] s[k]).vector_summary, col) is Some,
        spheres_of(s, col).len() == s.len() ==> forall|k: int|
            0 <= k < s.len() ==> spheres_of(s, col)[k] == lookup(
                (#[trigger] s[k]).vector_summary,
                col,
            )->0,
    decreases s.len(),
{
    if s.len() > 0 {
        let rest = s.drop_last();
        lemma_all_spheres(rest, col);
        assert(s[s.len() - 1] == s.last());
        assert forall|k: int| 0 <= k < rest.len() implies #[trigger] s[k] == rest[k] by {}
        if spheres_of(s, col).len() == s.len() {
            assert forall|k: int| 0 <= k < s.len() implies lookup(
                (#[trigger] s[k]).vector_summary,
                col,
            ) is Some && spheres_of(s, col)[k] == lookup(s[k].vector_summary, col)->0 by {
                if k < rest.len() {
                    assert(lookup(rest[k].vector_summary, col) is Some);
                }
            }
        }
        if forall|k: int|
            0 <= k < s.len() ==> lookup((#[trigger] s[k]).vector_summary, col) is Some {
            assert forall|k: int| 0 <= k < rest.len() implies lookup(
                (#[trigger] rest[k]).vector_summary,
                col,
            ) is Some by {
                assert(s[k] == rest[k]);
            }
        }
    }
}

/// A vector column has one sphere around all just where every superfile has a
/// sphere of it, and their centres are of one dimension.
pub proof fn all_superfiles_have_comparable_spheres(s: Seq<SuperfileEntryView>, col: Seq<char>)
    ensures
        groupable(s, col) <==> s.len() > 0 && (forall|k: int|
            0 <= k < s.len() ==> lookup((#[trigger] s[k]).vector_summary, col) is Some) && forall|
            j: int,
            k: int,
        |
            #![trigger s[j], s[k]]
            0 <= j < s.len() && 0 <= k < s.len() ==> lookup(
                s[j].vector_summary,
                col,
            )->0.centroid.len() == lookup(s[k].vector_summary, col)->0.centroid.len(),
{
    lemma_all_spheres(s, col);
    let v = spheres_of(s, col);
    if groupable(s, col) {
        assert forall|j: int, k: int|
            #![trigger s[j], s[k]]
            0 <= j < s.len() && 0 <= k < s.len() implies lookup(
            s[j].vector_summary,
            col,
        )->0.centroid.len() == lookup(s[k].vector_summary, col)->0.centroid.len() by {
            assert(v[j].centroid.len() == v[0].centroid.len());
            assert(v[k].centroid.len() == v[0].centroid.len());
        }
    } else if s.len() > 0 && v.len() == s.len() {
        let i = choose|i: int|
            0 <= i < v.len() && (#[trigger] v[i]).centroid.len() != v[0].centroid.len();
        assert(v[i] == lookup(s[i].vector_summary, col)->0);
        assert(v[0] == lookup(s[0].vector_summary, col)->0);
    }
}

} // verus!
