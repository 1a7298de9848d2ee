//! The concurrent map of cached superfiles.

use vstd::prelude::*;

verus! {

/// `dashmap::DashMap`: a map that threads share.
#[verifier::external_type_specification]
#[verifier::external_body]
#[verifier::reject_recursive_types(K)]
#[verifier::reject_recursive_types(V)]
#[verifier::reject_recursive_types(S)]
pub struct ExDashMap<K, V, S>(dashmap::DashMap<K, V, S>);

/// What a map of cached superfiles holds: for each key the size, the moment of
/// the last access, and whether the superfile is mapped.
pub uninterp spec fn slots(m: dashmap::DashMap<u128, (u64, u64, bool)>) -> Map<
    u128,
    (u64, u64, bool),
>;

/// The map that holds nothing.
pub open spec fn no_entries() -> Map<u128, (u64, u64, bool)> {
    Map::empty()
}

/// The value of a key, where there is one.
pub open spec fn slot_at(m: Map<u128, (u64, u64, bool)>, key: u128) -> Option<(u64, u64, bool)> {
    if m.dom().contains(key) {
        Some(m[key])
    } else {
        None
    }
}

/// That a list holds every pair of a map once.
pub open spec fn lists(s: Seq<(u128, (u64, u64, bool))>, m: Map<u128, (u64, u64, bool)>) -> bool {
    &&& forall|i: int, j: int| 0 <= i < j < s.len() ==> (#[trigger] s[i]).0 != (#[trigger] s[j]).0
    &&& forall|i: int|
        0 <= i < s.len() ==> m.dom().contains((#[trigger] s[i]).0) && m[s[i].0] == s[i].1
    &&& forall|k: u128| #[trigger] m.dom().contains(k) ==> listed(s, k)
}

/// That a list holds a key.
pub open spec fn listed(s: Seq<(u128, (u64, u64, bool))>, k: u128) -> bool {
    exists|i: int| 0 <= i < s.len() && (#[trigger] s[i]).0 == k
}

/// `DashMap::new`: an empty map.
#[verifier::external_body]
pub(crate) fn no_slots() -> (r: dashmap::DashMap<u128, (u64, u64, bool)>)
    ensures
        slots(r) == no_entries(),
{
    dashmap::DashMap::new()
}

/// `DashMap::get`: the value of a key, where there is one.
#[verifier::external_body]
pub(crate) fn get_slot(m: &dashmap::DashMap<u128, (u64, u64, bool)>, key: u128) -> (r: Option<
    (u64, u64, bool),
>)
    ensures
        r == slot_at(slots(*m), key),
{
    m.get(&key).map(|e| *e.value())
}

/// `DashMap::insert`: the key has the value from now on; the one that it had
/// comes back.
#[verifier::external_body]
pub(crate) fn put_slot(
    m: &mut dashmap::DashMap<u128, (u64, u64, bool)>,
    key: u128,
    value: (u64, u64, bool),
) -> (r: Option<(u64, u64, bool)>)
    ensures
        slots(*final(m)) == slots(*old(m)).insert(key, value),
        r == slot_at(slots(*old(m)), key),
{
    m.insert(key, value)
}

/// `DashMap::remove`: the key is gone; the value that it had comes back.
#[verifier::external_body]
pub(crate) fn take_slot(m: &mut dashmap::DashMap<u128, (u64, u64, bool)>, key: u128) -> (r: Option<
    (u64, u64, bool),
>)
    ensures
        slots(*final(m)) == slots(*old(m)).remove(key),
        r == slot_at(slots(*old(m)), key),
{
    m.remove(&key).map(|p| p.1)
}

/// `DashMap::iter`: every pair once. The order is that of a hash which each
/// process seeds, so nothing is said of it.
#[verifier::external_body]
pub(crate) fn list_slots(m: &dashmap::DashMap<u128, (u64, u64, bool)>) -> (r: Vec<
    (u128, (u64, u64, bool)),
>)
    ensures
        lists(r@, slots(*m)),
{
    m.iter().map(|e| (*e.key(), *e.value())).collect()
}

// ---------------------------------------------------------------- sums

/// The bytes of all superfiles of a map, or of the mapped ones alone.
pub open spec fn slots_bytes(m: Map<u128, (u64, u64, bool)>, mapped_only: bool) -> nat
    decreases m.dom().len(),
    when m.dom().finite()
{
    if m.dom().len() == 0 {
        0
    } else {
        let k = m.dom().choose();
        counted(m[k], mapped_only) + slots_bytes(m.remove(k), mapped_only)
    }
}

/// The bytes that a value counts for.
pub open spec fn counted(v: (u64, u64, bool), mapped_only: bool) -> nat {
    if mapped_only && !v.2 {
        0
    } else {
        v.0 as nat
    }
}

/// Any key can be counted first.
pub proof fn lemma_bytes_without(m: Map<u128, (u64, u64, bool)>, key: u128, mapped_only: bool)
    requires
        m.dom().finite(),
        m.dom().contains(key),
    ensures
        slots_bytes(m, mapped_only) == counted(m[key], mapped_only) + slots_bytes(
            m.remove(key),
            mapped_only,
        ),
    decreases m.dom().len(),
{
    let c = m.dom().choose();
    assert(m.dom().contains(c));
    if c != key {
        let a = m.remove(c);
        let b = m.remove(key);
        assert(a.dom().contains(key));
        lemma_bytes_without(a, key, mapped_only);
        assert(b.dom().contains(c));
        lemma_bytes_without(b, c, mapped_only);
        assert(a.remove(key) =~= b.remove(c));
    }
}

/// What an insertion does to the bytes.
pub proof fn lemma_bytes_insert(
    m: Map<u128, (u64, u64, bool)>,
    key: u128,
    value: (u64, u64, bool),
    mapped_only: bool,
)
    requires
        m.dom().finite(),
    ensures
        slots_bytes(m.insert(key, value), mapped_only) == counted(value, mapped_only) + slots_bytes(
            m.remove(key),
            mapped_only,
        ),
{
    let n = m.insert(key, value);
    lemma_bytes_without(n, key, mapped_only);
    assert(n.remove(key) =~= m.remove(key));
}

/// Mapped superfiles are among all superfiles.
pub proof fn lemma_mapped_bytes(m: Map<u128, (u64, u64, bool)>)
    requires
        m.dom().finite(),
    ensures
        slots_bytes(m, true) <= slots_bytes(m, false),
    decreases m.dom().len(),
{
    if m.dom().len() > 0 {
        let k = m.dom().choose();
        lemma_mapped_bytes(m.remove(k));
    }
}

/// The bytes of a list.
pub open spec fn list_bytes(s: Seq<(u128, (u64, u64, bool))>, mapped_only: bool) -> nat
    decreases s.len(),
{
    if s.len() == 0 {
        0
    } else {
        list_bytes(s.drop_last(), mapped_only) + counted(s.last().1, mapped_only)
    }
}

/// A list of a map has its bytes.
pub proof fn lemma_list_bytes(
    s: Seq<(u128, (u64, u64, bool))>,
    m: Map<u128, (u64, u64, bool)>,
    mapped_only: bool,
)
    requires
        lists(s, m),
        m.dom().finite(),
    ensures
        list_bytes(s, mapped_only) == slots_bytes(m, mapped_only),
    decreases s.len(),
{
    if s.len() == 0 {
        assert(m.dom().len() == 0) by {
            if m.dom().len() > 0 {
                let k = m.dom().choose();
                assert(m.dom().contains(k));
                assert(listed(s, k));
            }
        }
    } else {
        let rest = s.drop_last();
        let key = s.last().0;
        let n = m.remove(key);
        assert(s[s.len() - 1].0 == key);
        assert(lists(rest, n)) by {
            assert forall|i: int| 0 <= i < rest.len() implies n.dom().contains(
                (#[trigger] rest[i]).0,
            ) && n[rest[i].0] == rest[i].1 by {
                assert(s[i].0 != s[s.len() - 1].0);
                assert(m.dom().contains(s[i].0));
            }
            assert forall|i: int, j: int| 0 <= i < j < rest.len() implies (#[trigger] rest[i]).0
                != (#[trigger] rest[j]).0 by {
                assert(s[i].0 != s[j].0);
            }
            assert forall|k: u128| #[trigger] n.dom().contains(k) implies listed(rest, k) by {
                assert(m.dom().contains(k));
                let i = choose|i: int| 0 <= i < s.len() && (#[trigger] s[i]).0 == k;
                assert(i < s.len() - 1);
                assert(rest[i].0 == k);
            }
        }
        lemma_list_bytes(rest, n, mapped_only);
        lemma_bytes_without(m, key, mapped_only);
    }
}

/// A list of a map is as long as the map.
pub proof fn lemma_list_len(s: Seq<(u128, (u64, u64, bool))>, m: Map<u128, (u64, u64, bool)>)
    requires
        lists(s, m),
        m.dom().finite(),
    ensures
        s.len() == m.dom().len(),
    decreases s.len(),
{
    if s.len() == 0 {
        if m.dom().len() > 0 {
            let k = m.dom().choose();
            assert(m.dom().contains(k));
            assert(listed(s, k));
        }
    } else {
        let rest = s.drop_last();
        let key = s.last().0;
        let n = m.remove(key);
        assert(s[s.len() - 1].0 == key);
        assert(lists(rest, n)) by {
            assert forall|i: int| 0 <= i < rest.len() implies n.dom().contains(
                (#[trigger] rest[i]).0,
            ) && n[rest[i].0] == rest[i].1 by {
                assert(s[i].0 != s[s.len() - 1].0);
                assert(m.dom().contains(s[i].0));
            }
            assert forall|i: int, j: int| 0 <= i < j < rest.len() implies (#[trigger] rest[i]).0
                != (#[trigger] rest[j]).0 by {
                assert(s[i].0 != s[j].0);
            }
            assert forall|k: u128| #[trigger] n.dom().contains(k) implies listed(rest, k) by {
                assert(m.dom().contains(k));
                let i = choose|i: int| 0 <= i < s.len() && (#[trigger] s[i]).0 == k;
                assert(i < s.len() - 1);
                assert(rest[i].0 == k);
            }
        }
        lemma_list_len(rest, n);
    }
}

// ---------------------------------------------------------------- laws

/// The bytes of superfiles add up: a further one counts with its size, in the
/// mapped bytes only where it is mapped.
pub proof fn bytes_are_added_up(m: Map<u128, (u64, u64, bool)>, key: u128, value: (u64, u64, bool))
    requires
        m.dom().finite(),
        !m.dom().contains(key),
    ensures
        slots_bytes(no_entries(), false) == 0,
        slots_bytes(no_entries(), true) == 0,
        slots_bytes(m.insert(key, value), false) == slots_bytes(m, false) + value.0,
        value.2 ==> slots_bytes(m.insert(key, value), true) == slots_bytes(m, true) + value.0,
        !value.2 ==> slots_bytes(m.insert(key, value), true) == slots_bytes(m, true),
{
    assert(m.remove(key) =~= m);
    lemma_bytes_insert(m, key, value, false);
    lemma_bytes_insert(m, key, value, true);
    assert(no_entries().dom() =~= Set::empty());
}

} // verus!
