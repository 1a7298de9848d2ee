//! Stable order by a key.

use vstd::prelude::*;

use crate::ieee::{is_nan32, number32, number32_by_pattern};

verus! {

/// Whether place `a` comes before place `b`: by key, then by place.
pub open spec fn before(keys: Seq<i64>, a: int, b: int) -> bool {
    keys[a] < keys[b] || (keys[a] == keys[b] && a < b)
}

/// Places in strictly ascending order.
pub open spec fn in_order(keys: Seq<i64>, s: Seq<usize>) -> bool {
    forall|i: int, j: int|
        0 <= i < j < s.len() ==> before(keys, #[trigger] s[i] as int, #[trigger] s[j] as int)
}

/// All places of `keys`, each once, in stable ascending order of the keys.
pub open spec fn is_stable_order(keys: Seq<i64>, s: Seq<usize>) -> bool {
    &&& s.len() == keys.len()
    &&& forall|i: int| 0 <= i < s.len() ==> (#[trigger] s[i]) < keys.len()
    &&& in_order(keys, s)
}

/// There is only one stable order.
pub proof fn stable_order_is_unique(keys: Seq<i64>, s: Seq<usize>, t: Seq<usize>)
    requires
        is_stable_order(keys, s),
        is_stable_order(keys, t),
    ensures
        s == t,
{
    assert forall|i: int| 0 <= i < s.len() implies s[i] == t[i] by {
        lemma_order_agrees(keys, s, t, i);
    }
    assert(s =~= t);
}

/// Every place occurs in a stable order.
pub proof fn lemma_order_complete(keys: Seq<i64>, s: Seq<usize>, p: int)
    requires
        is_stable_order(keys, s),
        0 <= p < keys.len(),
    ensures
        exists|i: int| 0 <= i < s.len() && #[trigger] s[i] == p,
{
    let ints = Seq::new(s.len(), |i: int| s[i] as int);
    assert(ints.no_duplicates()) by {
        assert forall|i: int, j: int| 0 <= i < ints.len() && 0 <= j < ints.len() && i != j implies
            ints[i] != ints[j] by {
            if i < j {
                assert(before(keys, s[i] as int, s[j] as int));
            } else {
                assert(before(keys, s[j] as int, s[i] as int));
            }
        }
    }
    ints.unique_seq_to_set();
    let all = vstd::set_lib::set_int_range(0, keys.len() as int);
    vstd::set_lib::lemma_int_range(0, keys.len() as int);
    assert(ints.to_set().subset_of(all)) by {
        assert forall|x: int| ints.to_set().contains(x) implies all.contains(x) by {
            let i = choose|i: int| 0 <= i < ints.len() && ints[i] == x;
            assert(s[i] < keys.len());
        }
    }
    vstd::set_lib::lemma_subset_equality(ints.to_set(), all);
    assert(all.contains(p));
    let i = choose|i: int| 0 <= i < ints.len() && ints[i] == p;
    assert(s[i] == p);
}

proof fn lemma_order_agrees(keys: Seq<i64>, s: Seq<usize>, t: Seq<usize>, i: int)
    requires
        is_stable_order(keys, s),
        is_stable_order(keys, t),
        0 <= i < s.len(),
    ensures
        s[i] == t[i],
    decreases i,
{
    assert forall|k: int| 0 <= k < i implies s[k] == t[k] by {
        lemma_order_agrees(keys, s, t, k);
    }
    if s[i] != t[i] {
        lemma_order_complete(keys, s, t[i] as int);
        lemma_order_complete(keys, t, s[i] as int);
        let a = choose|a: int| 0 <= a < s.len() && #[trigger] s[a] == t[i];
        let b = choose|b: int| 0 <= b < t.len() && #[trigger] t[b] == s[i];
        assert(a > i && b > i);
        assert(before(keys, s[i] as int, s[a] as int));
        assert(before(keys, t[i] as int, t[b] as int));
    }
}

/// The places of `keys` in stable ascending order of the keys.
pub fn stable_order(keys: &[i64]) -> (r: Vec<usize>)
    ensures
        is_stable_order(keys@, r@),
{
    let mut out: Vec<usize> = Vec::new();
    let mut i: usize = 0;
    while i < keys.len()
        invariant
            i <= keys@.len(),
            out@.len() == i,
            forall|k: int| 0 <= k < out@.len() ==> (#[trigger] out@[k]) < i,
            in_order(keys@, out@),
        decreases keys@.len() - i,
    {
        let mut pos: usize = i;
        while pos > 0 && keys[out[pos - 1]] > keys[i]
            invariant
                i < keys@.len(),
                pos <= i,
                out@.len() == i,
                forall|k: int| 0 <= k < out@.len() ==> (#[trigger] out@[k]) < i,
                forall|k: int| pos <= k < i ==> keys@[(#[trigger] out@[k]) as int] > keys@[i as int],
            decreases pos,
        {
            pos = pos - 1;
        }
        let ghost old = out@;
        out.insert(pos, i);
        proof {
            assert forall|a: int, b: int| 0 <= a < b < out@.len() implies before(
                keys@,
                #[trigger] out@[a] as int,
                #[trigger] out@[b] as int,
            ) by {
                let oa = if a < pos { a } else { a - 1 };
                let ob = if b < pos { b } else { b - 1 };
                if a != pos && b != pos {
                    assert(out@[a] == old[oa] && out@[b] == old[ob]);
                    assert(before(keys@, old[oa] as int, old[ob] as int));
                } else if b == pos {
                    assert(out@[a] == old[a]);
                    if a < pos - 1 {
                        assert(before(keys@, old[a] as int, old[pos as int - 1] as int));
                    }
                } else {
                    assert(out@[b] == old[ob]);
                }
            }
        }
        i = i + 1;
    }
    out
}

/// The place of a single-precision float, given by its bit pattern, in the
/// order of the numbers. Both zeros have one place, and what is no number comes
/// last.
pub open spec fn float_key(bits: u32) -> i64 {
    if bits as int % 0x8000_0000 > 0x7f80_0000 {
        0x1_0000_0000
    } else if bits < 0x8000_0000 {
        bits as i64
    } else {
        (0x8000_0000 - bits) as i64
    }
}

/// The place of a float in the order of the numbers.
pub fn float_place(bits: u32) -> (r: i64)
    ensures
        r == float_key(bits),
{
    if bits % 0x8000_0000 > 0x7f80_0000 {
        0x1_0000_0000
    } else if bits < 0x8000_0000 {
        bits as i64
    } else {
        0x8000_0000 - bits as i64
    }
}

/// Keys are in the order of the numbers that the patterns stand for: the less
/// number has the less key, one number has one key, and a pattern that is no
/// number has the key behind all of them.
pub proof fn float_keys_follow_numbers(a: u32, b: u32)
    ensures
        !is_nan32(a) && !is_nan32(b) ==> (float_key(a) < float_key(b) <==> number32(a) < number32(
            b,
        )),
        !is_nan32(a) && !is_nan32(b) ==> (float_key(a) == float_key(b) <==> number32(a)
            == number32(b)),
        !is_nan32(a) && is_nan32(b) ==> float_key(a) < float_key(b),
        is_nan32(a) && is_nan32(b) ==> float_key(a) == float_key(b),
{
    number32_by_pattern(a, b);
    number32_by_pattern(b, a);
    assert(is_nan32(a) <==> a as int % 0x8000_0000 > 0x7f80_0000);
    assert(is_nan32(b) <==> b as int % 0x8000_0000 > 0x7f80_0000);
}

} // verus!
