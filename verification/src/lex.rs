//! Lexicographic order of byte strings.

use vstd::prelude::*;

verus! {

/// `a` comes before `b`, or is `b`, in lexicographic order.
pub open spec fn lex_le(a: Seq<u8>, b: Seq<u8>) -> bool
    decreases a.len(),
{
    if a.len() == 0 {
        true
    } else if b.len() == 0 {
        false
    } else if a[0] != b[0] {
        a[0] < b[0]
    } else {
        lex_le(a.skip(1), b.skip(1))
    }
}

/// `a` comes before `b` in lexicographic order.
pub open spec fn lex_lt(a: Seq<u8>, b: Seq<u8>) -> bool {
    !lex_le(b, a)
}

/// Whether `s` begins with `prefix`.
pub open spec fn starts_with(s: Seq<u8>, prefix: Seq<u8>) -> bool {
    prefix.len() <= s.len() && s.take(prefix.len() as int) == prefix
}

pub proof fn lex_le_reflexive(a: Seq<u8>)
    ensures
        lex_le(a, a),
    decreases a.len(),
{
    if a.len() > 0 {
        lex_le_reflexive(a.skip(1));
    }
}

pub proof fn lex_le_total(a: Seq<u8>, b: Seq<u8>)
    ensures
        lex_le(a, b) || lex_le(b, a),
    decreases a.len(),
{
    if a.len() > 0 && b.len() > 0 {
        lex_le_total(a.skip(1), b.skip(1));
    }
}

pub proof fn lex_le_antisymmetric(a: Seq<u8>, b: Seq<u8>)
    requires
        lex_le(a, b),
        lex_le(b, a),
    ensures
        a == b,
    decreases a.len(),
{
    if a.len() > 0 && b.len() > 0 {
        lex_le_antisymmetric(a.skip(1), b.skip(1));
        assert(a =~= seq![a[0]] + a.skip(1));
        assert(b =~= seq![b[0]] + b.skip(1));
    } else {
        assert(a =~= b);
    }
}

pub proof fn lex_le_transitive(a: Seq<u8>, b: Seq<u8>, c: Seq<u8>)
    requires
        lex_le(a, b),
        lex_le(b, c),
    ensures
        lex_le(a, c),
    decreases a.len(),
{
    if a.len() > 0 && b.len() > 0 && c.len() > 0 && a[0] == b[0] && b[0] == c[0] {
        lex_le_transitive(a.skip(1), b.skip(1), c.skip(1));
    }
}

/// Whether `a` comes before `b`, or is `b`.
pub fn bytes_le(a: &[u8], b: &[u8]) -> (r: bool)
    ensures
        r == lex_le(a@, b@),
{
    let mut i: usize = 0;
    proof {
        assert(a@.skip(0) =~= a@);
        assert(b@.skip(0) =~= b@);
    }
    while i < a.len() && i < b.len()
        invariant
            i <= a@.len(),
            i <= b@.len(),
            lex_le(a@, b@) == lex_le(a@.skip(i as int), b@.skip(i as int)),
        decreases a@.len() - i,
    {
        proof {
            assert(a@.skip(i as int).skip(1) =~= a@.skip(i as int + 1));
            assert(b@.skip(i as int).skip(1) =~= b@.skip(i as int + 1));
        }
        if a[i] != b[i] {
            return a[i] < b[i];
        }
        i = i + 1;
    }
    i >= a.len()
}

/// Whether two byte strings are the same.
pub fn bytes_eq(a: &[u8], b: &[u8]) -> (r: bool)
    ensures
        r == (a@ == b@),
{
    if a.len() != b.len() {
        return false;
    }
    let mut i: usize = 0;
    while i < a.len()
        invariant
            a@.len() == b@.len(),
            i <= a@.len(),
            forall|j: int| 0 <= j < i ==> a@[j] == b@[j],
        decreases a@.len() - i,
    {
        if a[i] != b[i] {
            return false;
        }
        i = i + 1;
    }
    proof {
        assert(a@ =~= b@);
    }
    true
}

/// A copy of a byte string.
pub fn bytes_copy(a: &[u8]) -> (r: Vec<u8>)
    ensures
        r@ == a@,
{
    let mut r: Vec<u8> = Vec::new();
    let mut i: usize = 0;
    while i < a.len()
        invariant
            i <= a@.len(),
            r@ == a@.take(i as int),
        decreases a@.len() - i,
    {
        r.push(a[i]);
        i = i + 1;
        proof {
            assert(r@ =~= a@.take(i as int));
        }
    }
    proof {
        assert(a@.take(i as int) =~= a@);
    }
    r
}

/// That two strings agree in the first `n` bytes, and `a` ends there, or has the
/// less byte next.
pub open spec fn precedes_at(a: Seq<u8>, b: Seq<u8>, n: int) -> bool {
    &&& 0 <= n <= a.len()
    &&& n <= b.len()
    &&& forall|i: int| 0 <= i < n ==> #[trigger] a[i] == b[i]
    &&& n == a.len() || (n < b.len() && a[n] < b[n])
}

/// The first byte in which two strings differ decides; where there is none, the
/// shorter one comes first.
pub proof fn first_difference_decides(a: Seq<u8>, b: Seq<u8>)
    ensures
        lex_le(a, b) <==> exists|n: int| precedes_at(a, b, n),
    decreases a.len(),
{
    if a.len() == 0 {
        assert(precedes_at(a, b, 0));
    } else if b.len() > 0 {
        let (x, y) = (a.skip(1), b.skip(1));
        first_difference_decides(x, y);
        if a[0] < b[0] {
            assert(precedes_at(a, b, 0));
        }
        if a[0] == b[0] && lex_le(x, y) {
            let n = choose|n: int| precedes_at(x, y, n);
            assert forall|i: int| 0 <= i < n + 1 implies #[trigger] a[i] == b[i] by {
                if i > 0 {
                    assert(x[i - 1] == y[i - 1]);
                }
            }
            assert(precedes_at(a, b, n + 1));
        }
        if exists|n: int| precedes_at(a, b, n) {
            let n = choose|n: int| precedes_at(a, b, n);
            if n > 0 {
                assert(a[0] == b[0]);
                assert forall|i: int| 0 <= i < n - 1 implies #[trigger] x[i] == y[i] by {
                    assert(a[i + 1] == b[i + 1]);
                }
                assert(precedes_at(x, y, n - 1));
            }
        }
    }
}

/// A string begins with a prefix where every byte of the prefix stands at its
/// place.
pub proof fn prefixes_stand_in_front(s: Seq<u8>, prefix: Seq<u8>)
    ensures
        starts_with(s, prefix) <==> prefix.len() <= s.len() && forall|i: int|
            0 <= i < prefix.len() ==> #[trigger] prefix[i] == s[i],
{
    if prefix.len() <= s.len() {
        let t = s.take(prefix.len() as int);
        if forall|i: int| 0 <= i < prefix.len() ==> #[trigger] prefix[i] == s[i] {
            assert(t =~= prefix);
        }
        if t == prefix {
            assert forall|i: int| 0 <= i < prefix.len() implies #[trigger] prefix[i] == s[i] by {
                assert(t[i] == s[i]);
            }
        }
    }
}

} // verus!
