//! Ordered maps from column names.

use vstd::prelude::*;
use vstd::utf8::encode_utf8;

use crate::text::text_eq;
use crate::lex::{bytes_le, lex_le, lex_lt};

verus! {

/// Column names are ordered by their UTF-8 bytes.
pub open spec fn key_lt(a: Seq<char>, b: Seq<char>) -> bool {
    lex_lt(encode_utf8(a), encode_utf8(b))
}

/// Strictly ascending keys.
pub open spec fn ascending<X>(s: Seq<(Seq<char>, X)>) -> bool {
    forall|i: int, j: int| 0 <= i < j < s.len() ==> key_lt(#[trigger] s[i].0, #[trigger] s[j].0)
}

/// The value under `key`.
pub open spec fn lookup<X>(s: Seq<(Seq<char>, X)>, key: Seq<char>) -> Option<X>
    decreases s.len(),
{
    if s.len() == 0 {
        None
    } else if s[0].0 == key {
        Some(s[0].1)
    } else {
        lookup(s.skip(1), key)
    }
}

/// `s` with `value` under `key`: in place of the value that stood there, or at
/// the key's place in the order.
pub open spec fn inserted<X>(s: Seq<(Seq<char>, X)>, key: Seq<char>, value: X) -> Seq<
    (Seq<char>, X),
>
    decreases s.len(),
{
    if s.len() == 0 {
        seq![(key, value)]
    } else if s[0].0 == key {
        seq![(key, value)] + s.skip(1)
    } else if key_lt(key, s[0].0) {
        seq![(key, value)] + s
    } else {
        seq![s[0]] + inserted(s.skip(1), key, value)
    }
}

/// A map from column names, held in ascending order of the names.
#[derive(Debug)]
pub struct ColumnMap<V> {
    entries: Vec<(String, V)>,
}

impl<V: View> View for ColumnMap<V> {
    type V = Seq<(Seq<char>, V::V)>;

    closed spec fn view(&self) -> Seq<(Seq<char>, V::V)> {
        Seq::new(self.entries@.len(), |i: int| (self.entries@[i].0@, self.entries@[i].1@))
    }
}

impl<V> ColumnMap<V> {
    spec fn key_at_spec(self, i: int) -> Seq<char> {
        self.entries@[i].0@
    }

    #[verifier::type_invariant]
    spec fn ordered(self) -> bool {
        forall|i: int, j: int|
            0 <= i < j < self.entries@.len() ==> key_lt(
                #[trigger] self.key_at_spec(i),
                #[trigger] self.key_at_spec(j),
            )
    }
}

fn key_precedes(a: &str, b: &str) -> (r: bool)
    ensures
        r == key_lt(a@, b@),
{
    !bytes_le(b.as_bytes(), a.as_bytes())
}

proof fn lemma_key_lt_transitive(a: Seq<char>, b: Seq<char>, c: Seq<char>)
    requires
        key_lt(a, b),
        key_lt(b, c),
    ensures
        key_lt(a, c),
{
    let (x, y, z) = (encode_utf8(a), encode_utf8(b), encode_utf8(c));
    if lex_le(z, x) {
        crate::lex::lex_le_total(x, y);
        crate::lex::lex_le_transitive(z, x, y);
    }
}

proof fn lemma_key_trichotomy(a: Seq<char>, b: Seq<char>)
    ensures
        a == b || key_lt(a, b) || key_lt(b, a),
        !(key_lt(a, b) && key_lt(b, a)),
        !key_lt(a, a),
{
    let (x, y) = (encode_utf8(a), encode_utf8(b));
    vstd::utf8::encode_utf8_decode_utf8(a);
    vstd::utf8::encode_utf8_decode_utf8(b);
    crate::lex::lex_le_total(x, y);
    crate::lex::lex_le_reflexive(x);
    if lex_le(x, y) && lex_le(y, x) {
        crate::lex::lex_le_antisymmetric(x, y);
    }
}

/// In an ascending sequence a key is found at its own place.
pub proof fn lemma_lookup_at<X>(s: Seq<(Seq<char>, X)>, i: int)
    requires
        ascending(s),
        0 <= i < s.len(),
    ensures
        lookup(s, s[i].0) == Some(s[i].1),
    decreases s.len(),
{
    if i > 0 {
        assert(key_lt(s[0].0, s[i].0));
        lemma_key_trichotomy(s[0].0, s[i].0);
        let t = s.skip(1);
        assert forall|a: int, b: int| 0 <= a < b < t.len() implies key_lt(
            #[trigger] t[a].0,
            #[trigger] t[b].0,
        ) by {
            assert(key_lt(s[a + 1].0, s[b + 1].0));
        }
        assert(t[i - 1] == s[i]);
        lemma_lookup_at(t, i - 1);
    }
}

/// What a lookup finds is the value of some entry with that key.
pub proof fn lemma_lookup_some<X>(s: Seq<(Seq<char>, X)>, key: Seq<char>)
    ensures
        lookup(s, key) is Some ==> exists|i: int|
            0 <= i < s.len() && #[trigger] s[i].0 == key && lookup(s, key) == Some(s[i].1),
        lookup(s, key) is None ==> forall|i: int| 0 <= i < s.len() ==> #[trigger] s[i].0 != key,
    decreases s.len(),
{
    if s.len() > 0 && s[0].0 != key {
        let t = s.skip(1);
        lemma_lookup_some(t, key);
        if lookup(t, key) is Some {
            let i = choose|i: int|
                0 <= i < t.len() && #[trigger] t[i].0 == key && lookup(t, key) == Some(t[i].1);
            assert(s[i + 1].0 == key);
        } else {
            assert forall|i: int| 0 <= i < s.len() implies #[trigger] s[i].0 != key by {
                if i > 0 {
                    assert(t[i - 1] == s[i]);
                }
            }
        }
    }
}

/// An insertion is seen under its own key, and changes no other.
pub proof fn lookup_after_insert<X>(
    s: Seq<(Seq<char>, X)>,
    key: Seq<char>,
    value: X,
    other: Seq<char>,
)
    requires
        ascending(s),
    ensures
        lookup(inserted(s, key, value), other) == (if other == key {
            Some(value)
        } else {
            lookup(s, other)
        }),
        ascending(inserted(s, key, value)),
        forall|i: int|
            0 <= i < inserted(s, key, value).len() ==> (#[trigger] inserted(s, key, value)[i]).0
                == key || exists|j: int| 0 <= j < s.len() && s[j].0 == inserted(s, key, value)[i].0,
    decreases s.len(),
{
    let r = inserted(s, key, value);
    if s.len() == 0 {
        assert(r.skip(1) =~= s);
    } else {
        let t = s.skip(1);
        assert forall|a: int, b: int| 0 <= a < b < t.len() implies key_lt(
            #[trigger] t[a].0,
            #[trigger] t[b].0,
        ) by {
            assert(key_lt(s[a + 1].0, s[b + 1].0));
        }
        if s[0].0 == key {
            assert(r.skip(1) =~= t);
            assert forall|i: int| 0 <= i < r.len() implies #[trigger] r[i].0 == s[i].0 by {}
            assert(ascending(r));
        } else if key_lt(key, s[0].0) {
            assert(r.skip(1) =~= s);
            assert forall|a: int, b: int| 0 <= a < b < r.len() implies key_lt(
                #[trigger] r[a].0,
                #[trigger] r[b].0,
            ) by {
                if a == 0 {
                    if b > 1 {
                        assert(key_lt(s[0].0, s[b - 1].0));
                        lemma_key_lt_transitive(key, s[0].0, s[b - 1].0);
                    }
                } else {
                    assert(key_lt(s[a - 1].0, s[b - 1].0));
                }
            }
            assert forall|i: int| 0 <= i < r.len() implies (#[trigger] r[i]).0 == key || exists|
                j: int,
            |
                0 <= j < s.len() && s[j].0 == r[i].0 by {
                if i > 0 {
                    assert(s[i - 1].0 == r[i].0);
                }
            }
        } else {
            lemma_key_trichotomy(key, s[0].0);
            let u = inserted(t, key, value);
            lookup_after_insert(t, key, value, other);
            assert(r.skip(1) =~= u);
            assert forall|i: int| 0 <= i < r.len() implies (#[trigger] r[i]).0 == key || exists|
                j: int,
            |
                0 <= j < s.len() && s[j].0 == r[i].0 by {
                if i == 0 {
                    assert(s[0].0 == r[0].0);
                } else {
                    assert(r[i] == u[i - 1]);
                    if u[i - 1].0 != key {
                        let j = choose|j: int| 0 <= j < t.len() && t[j].0 == u[i - 1].0;
                        assert(s[j + 1].0 == r[i].0);
                    }
                }
            }
            assert forall|a: int, b: int| 0 <= a < b < r.len() implies key_lt(
                #[trigger] r[a].0,
                #[trigger] r[b].0,
            ) by {
                if a == 0 {
                    assert(r[b] == u[b - 1]);
                    if u[b - 1].0 != key {
                        let j = choose|j: int| 0 <= j < t.len() && t[j].0 == u[b - 1].0;
                        assert(key_lt(s[0].0, s[j + 1].0));
                    }
                } else {
                    assert(key_lt(u[a - 1].0, u[b - 1].0));
                }
            }
        }
    }
}

proof fn lemma_inserted_at<X>(s: Seq<(Seq<char>, X)>, key: Seq<char>, value: X, i: int)
    requires
        0 <= i <= s.len(),
        forall|j: int| 0 <= j < i ==> key_lt(#[trigger] s[j].0, key),
        i < s.len() ==> s[i].0 == key || key_lt(key, s[i].0),
    ensures
        i < s.len() && s[i].0 == key ==> inserted(s, key, value) == s.update(i, (key, value)),
        !(i < s.len() && s[i].0 == key) ==> inserted(s, key, value) == s.insert(i, (key, value)),
    decreases i,
{
    if i == 0 {
        if s.len() > 0 && s[0].0 == key {
            assert(seq![(key, value)] + s.skip(1) =~= s.update(0, (key, value)));
        } else if s.len() > 0 {
            assert(seq![(key, value)] + s =~= s.insert(0, (key, value)));
        } else {
            assert(seq![(key, value)] =~= s.insert(0, (key, value)));
        }
    } else {
        assert(key_lt(s[0].0, key));
        lemma_key_trichotomy(s[0].0, key);
        let t = s.skip(1);
        assert forall|j: int| 0 <= j < i - 1 implies key_lt(#[trigger] t[j].0, key) by {
            assert(t[j] == s[j + 1]);
        }
        lemma_inserted_at(t, key, value, i - 1);
        if i < s.len() && s[i].0 == key {
            assert(seq![s[0]] + t.update(i - 1, (key, value)) =~= s.update(i, (key, value)));
        } else {
            assert(seq![s[0]] + t.insert(i - 1, (key, value)) =~= s.insert(i, (key, value)));
        }
    }
}

impl<V: View> ColumnMap<V> {
    /// The empty map.
    pub fn new() -> (m: Self)
        ensures
            m@ == Seq::<(Seq<char>, V::V)>::empty(),
    {
        let m = ColumnMap { entries: Vec::new() };
        proof {
            assert(m@ =~= Seq::<(Seq<char>, V::V)>::empty());
        }
        m
    }

    /// The keys of a map ascend.
    pub(crate) fn note_ascending(&self)
        ensures
            ascending(self@),
    {
        proof {
            use_type_invariant(&*self);
            assert forall|i: int, j: int| 0 <= i < j < self@.len() implies key_lt(
                #[trigger] self@[i].0,
                #[trigger] self@[j].0,
            ) by {
                assert(key_lt(self.key_at_spec(i), self.key_at_spec(j)));
            }
        }
    }

    pub fn len(&self) -> (n: usize)
        ensures
            n == self@.len(),
    {
        self.entries.len()
    }

    pub fn is_empty(&self) -> (r: bool)
        ensures
            r == (self@.len() == 0),
    {
        self.entries.len() == 0
    }

    /// The key at a place in the order.
    pub fn key_at(&self, i: usize) -> (k: &String)
        requires
            i < self@.len(),
        ensures
            k@ == self@[i as int].0,
    {
        &self.entries[i].0
    }

    /// The value at a place in the order.
    pub fn value_at(&self, i: usize) -> (v: &V)
        requires
            i < self@.len(),
        ensures
            v@ == self@[i as int].1,
    {
        &self.entries[i].1
    }

    /// The value under `key`.
    pub fn get(&self, key: &str) -> (r: Option<&V>)
        ensures
            match r {
                Some(v) => lookup(self@, key@) == Some(v@),
                None => lookup(self@, key@) is None,
            },
    {
        let mut i: usize = 0;
        proof {
            assert(self@.skip(0) =~= self@);
        }
        while i < self.entries.len()
            invariant
                i <= self.entries@.len(),
                self@.len() == self.entries@.len(),
                lookup(self@, key@) == lookup(self@.skip(i as int), key@),
            decreases self.entries@.len() - i,
        {
            proof {
                assert(self@.skip(i as int).skip(1) =~= self@.skip(i as int + 1));
            }
            if text_eq(self.entries[i].0.as_str(), key) {
                return Some(&self.entries[i].1);
            }
            i = i + 1;
        }
        None
    }

    pub fn contains_key(&self, key: &str) -> (r: bool)
        ensures
            r == (lookup(self@, key@) is Some),
    {
        self.get(key).is_some()
    }

    /// Put `value` under `key`.
    pub fn insert(&mut self, key: String, value: V)
        ensures
            final(self)@ == inserted(old(self)@, key@, value@),
    {
        proof {
            use_type_invariant(&*self);
        }
        let ghost before = *self;
        let ghost old_entries = self.entries@;
        let mut entries: Vec<(String, V)> = Vec::new();
        std::mem::swap(&mut entries, &mut self.entries);
        let mut i: usize = 0;
        while i < entries.len() && key_precedes(entries[i].0.as_str(), key.as_str())
            invariant
                entries@ == old_entries,
                i <= entries@.len(),
                forall|j: int| 0 <= j < i ==> key_lt(#[trigger] entries@[j].0@, key@),
            decreases entries@.len() - i,
        {
            i = i + 1;
        }
        let same = i < entries.len() && text_eq(entries[i].0.as_str(), key.as_str());
        proof {
            assert(before.entries@ == old_entries);
            if i < old_entries.len() {
                lemma_key_trichotomy(old_entries[i as int].0@, key@);
                assert(before@[i as int].0 == old_entries[i as int].0@);
            }
            assert forall|j: int| 0 <= j < i implies key_lt(#[trigger] before@[j].0, key@) by {
                assert(key_lt(old_entries[j].0@, key@));
            }
            lemma_inserted_at(before@, key@, value@, i as int);
        }
        let ghost k = key@;
        let ghost v = value@;
        if same {
            entries.set(i, (key, value));
        } else {
            entries.insert(i, (key, value));
        }
        proof {
            assert forall|a: int, b: int| 0 <= a < b < old_entries.len() implies key_lt(
                #[trigger] before.key_at_spec(a),
                #[trigger] before.key_at_spec(b),
            ) by {}
            let after = ColumnMap { entries };
            assert forall|a: int, b: int| 0 <= a < b < entries@.len() implies key_lt(
                #[trigger] after.key_at_spec(a),
                #[trigger] after.key_at_spec(b),
            ) by {
                if same {
                    assert(after.key_at_spec(a) == before.key_at_spec(a));
                    assert(after.key_at_spec(b) == before.key_at_spec(b));
                } else {
                    let at = i as int;
                    if b < at {
                        assert(after.key_at_spec(a) == before.key_at_spec(a));
                        assert(after.key_at_spec(b) == before.key_at_spec(b));
                    } else if b == at {
                        assert(after.key_at_spec(a) == before.key_at_spec(a));
                        assert(key_lt(old_entries[a].0@, k));
                    } else if a < at {
                        assert(after.key_at_spec(a) == before.key_at_spec(a));
                        assert(after.key_at_spec(b) == before.key_at_spec(b - 1));
                    } else if a == at {
                        assert(after.key_at_spec(b) == before.key_at_spec(b - 1));
                        if b - 1 > at {
                            assert(key_lt(before.key_at_spec(at), before.key_at_spec(b - 1)));
                            lemma_key_lt_transitive(
                                k,
                                before.key_at_spec(at),
                                before.key_at_spec(b - 1),
                            );
                        }
                    } else {
                        assert(after.key_at_spec(a) == before.key_at_spec(a - 1));
                        assert(after.key_at_spec(b) == before.key_at_spec(b - 1));
                    }
                }
            }
            if same {
                assert(after@ =~= before@.update(i as int, (k, v)));
            } else {
                assert(after@ =~= before@.insert(i as int, (k, v)));
            }
        }
        self.entries = entries;
    }
}

/// A key after all others is inserted at the end.
pub proof fn lemma_insert_last<X>(s: Seq<(Seq<char>, X)>, key: Seq<char>, value: X)
    requires
        forall|j: int| 0 <= j < s.len() ==> key_lt(#[trigger] s[j].0, key),
    ensures
        inserted(s, key, value) == s.push((key, value)),
{
    lemma_inserted_at(s, key, value, s.len() as int);
    assert(s.insert(s.len() as int, (key, value)) =~= s.push((key, value)));
}

} // verus!
