//! Fixed-width integers as byte strings.

use vstd::arithmetic::power2::pow2;
use vstd::prelude::*;

verus! {

/// The `width` low-order base-256 digits of `n`, least significant first.
pub open spec fn le_bytes(n: nat, width: nat) -> Seq<u8>
    decreases width,
{
    if width == 0 {
        Seq::empty()
    } else {
        seq![(n % 256) as u8] + le_bytes(n / 256, (width - 1) as nat)
    }
}

/// The number whose base-256 digits are `s`, least significant first.
pub open spec fn le_value(s: Seq<u8>) -> nat
    decreases s.len(),
{
    if s.len() == 0 {
        0
    } else {
        s[0] as nat + 256 * le_value(s.skip(1))
    }
}

/// 256 to the power `width`.
pub open spec fn pow256(width: nat) -> nat
    decreases width,
{
    if width == 0 {
        1
    } else {
        256 * pow256((width - 1) as nat)
    }
}

pub proof fn lemma_le_bytes_len(n: nat, width: nat)
    ensures
        le_bytes(n, width).len() == width,
    decreases width,
{
    if width > 0 {
        lemma_le_bytes_len(n / 256, (width - 1) as nat);
    }
}

/// Reading little-endian bytes gives back the number they were written from.
pub proof fn le_bytes_round_trip(n: nat, width: nat)
    requires
        n < pow256(width),
    ensures
        le_value(le_bytes(n, width)) == n,
        le_bytes(n, width).len() == width,
    decreases width,
{
    lemma_le_bytes_len(n, width);
    if width > 0 {
        let rest = le_bytes(n / 256, (width - 1) as nat);
        le_bytes_round_trip(n / 256, (width - 1) as nat);
        assert(le_bytes(n, width).skip(1) =~= rest);
    }
}

/// Writing a number read from little-endian bytes gives back the bytes.
pub proof fn le_value_round_trip(s: Seq<u8>)
    ensures
        le_bytes(le_value(s), s.len()) == s,
        le_value(s) < pow256(s.len()),
    decreases s.len(),
{
    if s.len() > 0 {
        le_value_round_trip(s.skip(1));
        let v = le_value(s);
        assert(v % 256 == s[0] as nat);
        assert(v / 256 == le_value(s.skip(1)));
        assert(le_bytes(v, s.len()) =~= seq![s[0]] + s.skip(1));
        assert(seq![s[0]] + s.skip(1) =~= s);
    } else {
        assert(le_bytes(0, 0) =~= s);
    }
}

pub proof fn lemma_pow256_widths()
    ensures
        pow256(1) == 0x100,
        pow256(2) == 0x1_0000,
        pow256(4) == 0x1_0000_0000,
        pow256(8) == 0x1_0000_0000_0000_0000,
        pow256(16) == 0x1_0000_0000_0000_0000_0000_0000_0000_0000nat,
{
    reveal_with_fuel(pow256, 17);
}

proof fn lemma_le_bytes_snoc(n: nat, width: nat)
    ensures
        le_bytes(n, width + 1) == le_bytes(n, width).push(((n / pow256(width)) % 256) as u8),
    decreases width,
{
    if width == 0 {
        assert(n / pow256(0) == n) by (nonlinear_arith)
            requires
                pow256(0) == 1,
        ;
        assert(le_bytes(n, 1) =~= seq![(n % 256) as u8] + le_bytes(n / 256, 0));
        assert(le_bytes(n, 1) =~= le_bytes(n, 0).push((n % 256) as u8));
    } else {
        lemma_le_bytes_snoc(n / 256, (width - 1) as nat);
        lemma_pow256_positive((width - 1) as nat);
        vstd::arithmetic::div_mod::lemma_div_denominator(
            n as int,
            256,
            pow256((width - 1) as nat) as int,
        );
        assert(le_bytes(n, width + 1) =~= seq![(n % 256) as u8] + le_bytes(n / 256, width));
        assert(le_bytes(n, width + 1) =~= le_bytes(n, width).push(
            ((n / pow256(width)) % 256) as u8,
        ));
    }
}

proof fn lemma_pow256_positive(width: nat)
    ensures
        pow256(width) > 0,
    decreases width,
{
    if width > 0 {
        lemma_pow256_positive((width - 1) as nat);
    }
}

/// Append the low `width` bytes of `n` to `out`, least significant first.
pub fn push_le(out: &mut Vec<u8>, n: u128, width: usize)
    ensures
        final(out)@ == old(out)@ + le_bytes(n as nat, width as nat),
{
    let ghost start = out@;
    let mut i: usize = 0;
    let mut rest: u128 = n;
    proof {
        assert(start + le_bytes(n as nat, 0) =~= start);
        assert(n as nat / pow256(0) == n as nat) by (nonlinear_arith)
            requires
                pow256(0) == 1,
        ;
    }
    while i < width
        invariant
            i <= width,
            rest as nat == n as nat / pow256(i as nat),
            out@ == start + le_bytes(n as nat, i as nat),
        decreases width - i,
    {
        proof {
            lemma_le_bytes_snoc(n as nat, i as nat);
            lemma_pow256_positive(i as nat);
            vstd::arithmetic::div_mod::lemma_div_denominator(
                n as int,
                pow256(i as nat) as int,
                256,
            );
            assert(pow256(i as nat + 1) == pow256(i as nat) * 256) by (nonlinear_arith)
                requires
                    pow256(i as nat + 1) == 256 * pow256(i as nat),
            ;
        }
        out.push((rest % 256) as u8);
        rest = rest / 256;
        i = i + 1;
        proof {
            assert(out@ =~= start + le_bytes(n as nat, i as nat));
        }
    }
}

/// The number written in `s`, least significant byte first.
pub fn read_le(s: &[u8]) -> (n: u128)
    requires
        s@.len() <= 16,
    ensures
        n as nat == le_value(s@),
{
    let mut n: u128 = 0;
    let mut i: usize = s.len();
    proof {
        assert(s@.skip(i as int).len() == 0);
        lemma_pow256_widths();
    }
    while i > 0
        invariant
            i <= s@.len(),
            s@.len() <= 16,
            n as nat == le_value(s@.skip(i as int)),
        decreases i,
    {
        proof {
            let tail = s@.skip(i as int - 1);
            assert(tail.skip(1) =~= s@.skip(i as int));
            le_value_round_trip(tail);
            lemma_pow256_mono(tail.len(), 16);
            lemma_pow256_widths();
        }
        i = i - 1;
        n = n * 256 + s[i] as u128;
    }
    proof {
        assert(s@.skip(0) =~= s@);
    }
    n
}

proof fn lemma_pow256_mono(a: nat, b: nat)
    requires
        a <= b,
    ensures
        pow256(a) <= pow256(b),
    decreases b,
{
    if a < b {
        lemma_pow256_mono(a, (b - 1) as nat);
    }
}

/// The two's-complement bit pattern of `n`.
pub open spec fn twos_complement(n: i128) -> nat {
    if n >= 0 {
        n as nat
    } else {
        (n + 0x1_0000_0000_0000_0000_0000_0000_0000_0000int) as nat
    }
}

/// `n` as sixteen bytes, most significant first.
pub open spec fn be_bytes_i128(n: i128) -> Seq<u8> {
    le_bytes(twos_complement(n), 16).reverse()
}

/// The value whose two's-complement form is the sixteen bytes `s`, most
/// significant first.
pub open spec fn be_value_i128(s: Seq<u8>) -> i128 {
    let n = le_value(s.reverse());
    if n < 0x8000_0000_0000_0000_0000_0000_0000_0000 {
        n as i128
    } else {
        (n - 0x1_0000_0000_0000_0000_0000_0000_0000_0000int) as i128
    }
}

pub(crate) fn bits_of_i128(n: i128) -> (r: u128)
    ensures
        r as nat == twos_complement(n),
{
    let r: u128 = n as u128;
    assert(n >= 0 ==> r == n) by (bit_vector)
        requires
            r == n as u128,
    ;
    assert(n < 0 ==> r == n + 0x1_0000_0000_0000_0000_0000_0000_0000_0000int) by (bit_vector)
        requires
            r == n as u128,
    ;
    r
}

fn i128_of_bits(n: u128) -> (r: i128)
    ensures
        n < 0x8000_0000_0000_0000_0000_0000_0000_0000 ==> r == n,
        n >= 0x8000_0000_0000_0000_0000_0000_0000_0000 ==> r == n
            - 0x1_0000_0000_0000_0000_0000_0000_0000_0000int,
{
    let r: i128 = n as i128;
    assert(n < 0x8000_0000_0000_0000_0000_0000_0000_0000 ==> r == n) by (bit_vector)
        requires
            r == n as i128,
    ;
    assert(n >= 0x8000_0000_0000_0000_0000_0000_0000_0000 ==> r == n
        - 0x1_0000_0000_0000_0000_0000_0000_0000_0000int) by (bit_vector)
        requires
            r == n as i128,
    ;
    r
}

/// Sixteen big-endian bytes of `n`.
pub fn i128_to_be(n: i128) -> (r: Vec<u8>)
    ensures
        r@ == be_bytes_i128(n),
        r@.len() == 16,
{
    let mut le: Vec<u8> = Vec::new();
    let bits = bits_of_i128(n);
    push_le(&mut le, bits, 16);
    proof {
        lemma_le_bytes_len(bits as nat, 16);
        assert(le@ =~= le_bytes(bits as nat, 16));
    }
    reversed(&le)
}

/// The value of sixteen big-endian bytes.
pub fn i128_from_be(s: &[u8]) -> (n: i128)
    requires
        s@.len() == 16,
    ensures
        n == be_value_i128(s@),
{
    let le = reversed(s);
    let bits = read_le(&le);
    i128_of_bits(bits)
}

fn reversed(s: &[u8]) -> (r: Vec<u8>)
    ensures
        r@ == s@.reverse(),
{
    let mut r: Vec<u8> = Vec::new();
    let mut i: usize = s.len();
    while i > 0
        invariant
            i <= s@.len(),
            r@.len() == s@.len() - i,
            forall|j: int| 0 <= j < r@.len() ==> r@[j] == s@[s@.len() - 1 - j],
        decreases i,
    {
        i = i - 1;
        r.push(s[i]);
    }
    proof {
        assert(r@ =~= s@.reverse());
    }
    r
}

/// Sixteen big-endian bytes read back give the value they were written from.
pub proof fn be_i128_round_trip(n: i128)
    ensures
        be_bytes_i128(n).len() == 16,
        be_value_i128(be_bytes_i128(n)) == n,
{
    lemma_pow256_widths();
    le_bytes_round_trip(twos_complement(n), 16);
    assert(be_bytes_i128(n).reverse() =~= le_bytes(twos_complement(n), 16));
}

// ---------------------------------------------------------------- 32-bit words

/// The words, four little-endian bytes each, one behind the other.
pub open spec fn u32s_bytes(words: Seq<u32>) -> Seq<u8> {
    Seq::new(4 * words.len(), |i: int| le_bytes(words[i / 4] as nat, 4)[i % 4])
}

/// The words that a byte string holds; a rest of fewer than four bytes is
/// left out.
pub open spec fn u32s_parsed(s: Seq<u8>) -> Seq<u32> {
    Seq::new(s.len() / 4, |i: int| le_value(s.subrange(4 * i, 4 * i + 4)) as u32)
}

/// Words read back are the words written.
pub proof fn u32s_round_trip(words: Seq<u32>)
    ensures
        u32s_parsed(u32s_bytes(words)) == words,
        u32s_bytes(words).len() == 4 * words.len(),
{
    let s = u32s_bytes(words);
    assert forall|i: int| 0 <= i < words.len() implies u32s_parsed(s)[i] == #[trigger] words[i] by {
        lemma_pow256_widths();
        le_bytes_round_trip(words[i] as nat, 4);
        assert(s.subrange(4 * i, 4 * i + 4) =~= le_bytes(words[i] as nat, 4)) by {
            assert forall|k: int| 0 <= k < 4 implies #[trigger] s.subrange(4 * i, 4 * i + 4)[k]
                == le_bytes(words[i] as nat, 4)[k] by {
                assert((4 * i + k) / 4 == i && (4 * i + k) % 4 == k);
            }
        }
    }
    assert(u32s_parsed(s) =~= words);
}

/// Append the words to `out`.
pub fn push_u32s(out: &mut Vec<u8>, words: &[u32])
    ensures
        final(out)@ == old(out)@ + u32s_bytes(words@),
{
    let ghost start = out@;
    let mut i: usize = 0;
    proof {
        assert(start + u32s_bytes(words@.take(0)) =~= start);
    }
    while i < words.len()
        invariant
            i <= words@.len(),
            out@ == start + u32s_bytes(words@.take(i as int)),
        decreases words@.len() - i,
    {
        push_le(out, words[i] as u128, 4);
        proof {
            let w = words@[i as int] as nat;
            lemma_le_bytes_len(w, 4);
            let a = u32s_bytes(words@.take(i as int));
            let b = u32s_bytes(words@.take(i as int + 1));
            assert forall|k: int| 0 <= k < b.len() implies #[trigger] b[k] == (a + le_bytes(
                w,
                4,
            ))[k] by {
                if k >= 4 * i {
                    assert(k / 4 == i && k % 4 == k - 4 * i);
                }
            }
            assert(b =~= a + le_bytes(w, 4));
            assert(out@ =~= start + b);
        }
        i = i + 1;
    }
    proof {
        assert(words@.take(i as int) =~= words@);
    }
}

/// The words that `s` holds.
pub fn read_u32s(s: &[u8]) -> (r: Vec<u32>)
    ensures
        r@ == u32s_parsed(s@),
{
    let mut r: Vec<u32> = Vec::new();
    let total: usize = s.len();
    let n: usize = total / 4;
    let mut i: usize = 0;
    while i < n
        invariant
            total == s@.len(),
            n == total / 4,
            i <= n,
            r@.len() == i,
            forall|k: int| 0 <= k < i ==> #[trigger] r@[k] == u32s_parsed(s@)[k],
        decreases n - i,
    {
        let w = read_le(vstd::slice::slice_subrange(s, 4 * i, 4 * i + 4));
        proof {
            le_value_round_trip(s@.subrange(4 * i as int, 4 * i + 4));
            lemma_pow256_widths();
        }
        r.push(w as u32);
        i = i + 1;
    }
    proof {
        assert(r@ =~= u32s_parsed(s@));
    }
    r
}

/// The byte at a place is the digit of that power of 256: the least significant
/// comes first.
pub proof fn le_bytes_are_digits(n: nat, width: nat, i: int)
    requires
        0 <= i < width,
    ensures
        le_bytes(n, width).len() == width,
        le_bytes(n, width)[i] as nat == n / pow2((8 * i) as nat) % 256,
    decreases width,
{
    lemma_le_bytes_len(n, width);
    if i == 0 {
        vstd::arithmetic::power2::lemma2_to64();
        assert(pow2((8 * i) as nat) == 1);
        vstd::arithmetic::div_mod::lemma_div_basics(n as int);
    } else {
        le_bytes_are_digits(n / 256, (width - 1) as nat, i - 1);
        let low = pow2((8 * (i - 1)) as nat);
        vstd::arithmetic::power2::lemma_pow2_pos((8 * (i - 1)) as nat);
        vstd::arithmetic::power2::lemma_pow2_adds(8, (8 * (i - 1)) as nat);
        vstd::arithmetic::power2::lemma2_to64();
        assert(8 + (8 * (i - 1)) as nat == (8 * i) as nat);
        assert(pow2((8 * i) as nat) == 256 * low);
        vstd::arithmetic::div_mod::lemma_div_denominator(n as int, 256, low as int);
        assert(le_bytes(n, width)[i] == le_bytes(n / 256, (width - 1) as nat)[i - 1]);
    }
}

/// A number of sixteen bytes is written with the most significant byte first,
/// a negative one as the number that it makes with 256 to the sixteenth.
pub proof fn be_bytes_are_digits(n: i128, i: int)
    requires
        0 <= i < 16,
    ensures
        be_bytes_i128(n).len() == 16,
        be_bytes_i128(n)[i] as int == (n as int % 0x1_0000_0000_0000_0000_0000_0000_0000_0000int) / (
        pow2((8 * (15 - i)) as nat) as int) % 256,
{
    lemma_le_bytes_len(twos_complement(n), 16);
    le_bytes_are_digits(twos_complement(n), 16, 15 - i);
}

/// Words are written one behind the other, each in four bytes, the least
/// significant first.
pub proof fn words_are_written_least_byte_first(words: Seq<u32>, i: int, k: int)
    requires
        0 <= i < words.len(),
        0 <= k < 4,
    ensures
        u32s_bytes(words)[4 * i + k] as nat == words[i] as nat / pow2((8 * k) as nat) % 256,
{
    let at = 4 * i + k;
    assert(at / 4 == i && at % 4 == k);
    le_bytes_are_digits(words[i] as nat, 4, k);
}

} // verus!
