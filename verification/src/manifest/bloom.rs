//! Term-presence bloom filters.
//!
//! A filter is an array of 64-byte blocks, a power of two of them. A key
//! selects one block and four bit positions in it, all from one 64-bit hash.
//! A key may be in the filter if its four bits are set; a key that was
//! inserted always is.

use std::sync::Arc;
use vstd::arithmetic::power2::{
    lemma2_to64, lemma_pow2_pos, lemma_pow2_strictly_increases, lemma_pow2_unfold, pow2,
};
use vstd::prelude::*;
use wide::u64x4;

use crate::bytes::{le_bytes, push_le, read_le};
use crate::share::share;

verus! {

/// Bytes of a block.
pub const BLOCK_BYTES: usize = 64;

/// Bits of a block.
pub const BLOCK_BITS: usize = 512;

/// 64-bit words of a block.
const BLOCK_WORDS: usize = 8;

/// Bits that a key sets.
pub const K: usize = 4;

/// Blocks of a filter of the default size.
pub const DEFAULT_N_BLOCKS: usize = 1024;

/// Bytes of a filter of the default size.
pub const DEFAULT_BLOOM_BYTES: usize = 65536;

// ---------------------------------------------------------------- the hash

/// The XXH3-64 hash of a byte string.
pub uninterp spec fn xxh3_hash(key: Seq<u8>) -> u64;

/// `xxhash_rust::xxh3::xxh3_64`: the 64-bit XXH3 hash of the key, with the
/// default secret and no seed.
#[verifier::external_body]
fn xxh3(key: &[u8]) -> (h: u64)
    ensures
        h == xxh3_hash(key@),
{
    xxhash_rust::xxh3::xxh3_64(key)
}

/// The golden-ratio remix of a hash, from which the positions come.
pub open spec fn remixed(h: u64) -> nat {
    (h as nat * 0x9E37_79B9_7F4A_7C15nat) % 0x1_0000_0000_0000_0000nat
}

/// The `i`-th bit position of a hash within its block.
pub open spec fn probe(h: u64, i: int) -> int {
    ((remixed(h) % 0x1_0000_0000) as int + i * (remixed(h) / 0x1_0000_0000) as int) % 512
}

/// The block of a hash: its upper half, masked.
pub open spec fn block_index(h: u64, n_blocks_mask: u32) -> int {
    ((h / 0x1_0000_0000) as u32 & n_blocks_mask) as int
}

/// Whether bit `p` of a byte string is set; bits are counted from the least
/// significant bit of the first byte.
pub open spec fn has_bit(bytes: Seq<u8>, p: int) -> bool {
    0 <= p < 8 * bytes.len() && (bytes[p / 8] >> ((p % 8) as u8)) & 1 == 1
}

/// Whether bit `p` is one of the bits of `key`.
pub open spec fn is_key_bit(key: Seq<u8>, n_blocks_mask: u32, p: int) -> bool {
    let h = xxh3_hash(key);
    exists|i: int|
        0 <= i < 4 && p == 512 * block_index(h, n_blocks_mask) + #[trigger] probe(h, i)
}

/// Whether all bits of `key` are set.
pub open spec fn may_contain(bytes: Seq<u8>, n_blocks_mask: u32, key: Seq<u8>) -> bool {
    let h = xxh3_hash(key);
    forall|i: int|
        0 <= i < 4 ==> has_bit(bytes, 512 * block_index(h, n_blocks_mask) + #[trigger] probe(h, i))
}

/// Powers of two.
pub open spec fn is_pow2(n: nat) -> bool
    decreases n,
{
    n == 1 || (n > 1 && n % 2 == 0 && is_pow2(n / 2))
}

/// The mask of a block count: one less than it, in 32 bits.
pub open spec fn mask_of(n_blocks: nat) -> u32 {
    ((n_blocks - 1) % 0x1_0000_0000) as u32
}

/// Byte strings that are filters: whole blocks, a power of two of them.
pub open spec fn is_filter(bytes: Seq<u8>) -> bool {
    bytes.len() % 64 == 0 && is_pow2(bytes.len() / 64)
}

/// Whether `n` is a power of two.
fn power_of_two(n: usize) -> (r: bool)
    ensures
        r == is_pow2(n as nat),
{
    if n == 0 {
        return false;
    }
    let mut m: usize = n;
    while m % 2 == 0
        invariant
            m > 0,
            is_pow2(m as nat) == is_pow2(n as nat),
        decreases m,
    {
        m = m / 2;
    }
    m == 1
}

fn block_mask(n_blocks: usize) -> (m: u32)
    requires
        n_blocks > 0,
    ensures
        m == mask_of(n_blocks as nat),
        m < n_blocks,
{
    ((n_blocks - 1) as u64 % 0x1_0000_0000) as u32
}

// ---------------------------------------------------------------- words

/// Whether bit `b` of a word is set.
spec fn word_bit(w: u64, b: int) -> bool {
    (w >> (b as u64)) & 1 == 1
}

/// The bytes of words, each least significant byte first.
pub open spec fn words_bytes(words: Seq<u64>) -> Seq<u8> {
    Seq::new(8 * words.len(), |i: int| le_bytes(words[i / 8] as nat, 8)[i % 8])
}

proof fn lemma_word_byte(w: u64, k: int)
    requires
        0 <= k < 8,
    ensures
        le_bytes(w as nat, 8).len() == 8,
        le_bytes(w as nat, 8)[k] == ((w >> (8 * k as u64)) & 0xff) as u8,
{
    reveal_with_fuel(le_bytes, 9);
    let n = w as nat;
    assert(n / 256 / 256 == n / 0x1_0000);
    assert(n / 256 / 256 / 256 == n / 0x100_0000);
    assert(n / 256 / 256 / 256 / 256 == n / 0x1_0000_0000);
    assert(n / 256 / 256 / 256 / 256 / 256 == n / 0x100_0000_0000);
    assert(n / 256 / 256 / 256 / 256 / 256 / 256 == n / 0x1_0000_0000_0000);
    assert(n / 256 / 256 / 256 / 256 / 256 / 256 / 256 == n / 0x100_0000_0000_0000);
    assert((w >> 0u64) & 0xff == w % 256 && (w >> 8u64) & 0xff == (w / 0x100) % 256 && (w >> 16u64)
        & 0xff == (w / 0x1_0000) % 256 && (w >> 24u64) & 0xff == (w / 0x100_0000) % 256 && (w
        >> 32u64) & 0xff == (w / 0x1_0000_0000) % 256 && (w >> 40u64) & 0xff == (w
        / 0x100_0000_0000) % 256 && (w >> 48u64) & 0xff == (w / 0x1_0000_0000_0000) % 256 && (w
        >> 56u64) & 0xff == (w / 0x100_0000_0000_0000) % 256) by (bit_vector);
}

/// Bit `p` of the bytes of words is bit `p mod 64` of word `p / 64`.
proof fn lemma_has_bit_words(words: Seq<u64>, p: int)
    requires
        0 <= p < 64 * words.len(),
    ensures
        has_bit(words_bytes(words), p) == word_bit(words[p / 64], p % 64),
{
    let w = words[p / 64];
    let k = (p / 8) % 8;
    lemma_word_byte(w, k);
    assert((p / 8) / 8 == p / 64);
    let byte = words_bytes(words)[p / 8];
    assert(byte == ((w >> (8 * k as u64)) & 0xff) as u8);
    let s: u64 = (8 * k) as u64;
    let r: u8 = (p % 8) as u8;
    let t: u64 = (p % 64) as u64;
    assert(t == s + r);
    assert(((((w >> s) & 0xff) as u8) >> r) & 1 == 1u8 <==> (w >> t) & 1 == 1u64) by (bit_vector)
        requires
            t == s + r,
            r < 8,
            s <= 56,
    ;
}

proof fn lemma_word_or(a: u64, b: u64, i: int)
    requires
        0 <= i < 64,
    ensures
        word_bit(a | b, i) == (word_bit(a, i) || word_bit(b, i)),
{
    let s = i as u64;
    assert(((a | b) >> s) & 1 == 1 <==> (a >> s) & 1 == 1 || (b >> s) & 1 == 1) by (bit_vector);
}

proof fn lemma_one_bit(s: u64, i: int)
    requires
        s < 64,
        0 <= i < 64,
    ensures
        word_bit(1u64 << s, i) == (i == s),
{
    let t = i as u64;
    assert(((1u64 << s) >> t) & 1 == 1 <==> t == s) by (bit_vector)
        requires
            s < 64,
            t < 64,
    ;
}

proof fn lemma_subset_word(m: u64, w: u64)
    ensures
        (m & !w == 0) <==> (forall|i: int| 0 <= i < 64 && word_bit(m, i) ==> #[trigger] word_bit(w, i)),
{
    if m & !w == 0 {
        assert forall|i: int| 0 <= i < 64 && word_bit(m, i) implies #[trigger] word_bit(w, i) by {
            let s = i as u64;
            assert((w >> s) & 1 == 1) by (bit_vector)
                requires
                    m & !w == 0,
                    (m >> s) & 1 == 1,
            ;
        }
    } else {
        let x = m & !w;
        vstd::std_specs::bits::axiom_u64_trailing_zeros(x);
        let s = vstd::std_specs::bits::u64_trailing_zeros(x) as u64;
        assert((m >> s) & 1 == 1 && (w >> s) & 1 != 1) by (bit_vector)
            requires
                x == m & !w,
                (x >> s) & 1 == 1,
                s < 64,
        ;
        assert(word_bit(m, s as int) && !word_bit(w, s as int));
    }
}

/// The word `w` of the mask of four positions.
fn mask_word(p: [usize; 4], w: usize) -> (m: u64)
    requires
        w < 8,
        forall|i: int| 0 <= i < 4 ==> #[trigger] p@[i] < 512,
    ensures
        forall|b: int|
            0 <= b < 64 ==> (#[trigger] word_bit(m, b) <==> exists|i: int|
                0 <= i < 4 && #[trigger] p@[i] == 64 * w + b),
{
    let mut m: u64 = 0;
    let mut i: usize = 0;
    proof {
        assert forall|b: int| 0 <= b < 64 implies !#[trigger] word_bit(0u64, b) by {
            let s = b as u64;
            assert((0u64 >> s) & 1 == 0) by (bit_vector);
        }
    }
    while i < 4
        invariant
            w < 8,
            forall|j: int| 0 <= j < 4 ==> #[trigger] p@[j] < 512,
            i <= 4,
            forall|b: int|
                0 <= b < 64 ==> (#[trigger] word_bit(m, b) <==> exists|j: int|
                    0 <= j < i && #[trigger] p@[j] == 64 * w + b),
        decreases 4 - i,
    {
        let ghost before = m;
        let q: usize = p[i];
        if q / 64 == w {
            let s: u64 = (q % 64) as u64;
            m = m | (1u64 << s);
            proof {
                assert forall|b: int| 0 <= b < 64 implies (#[trigger] word_bit(m, b) <==> exists|
                    j: int,
                |
                    0 <= j < i + 1 && #[trigger] p@[j] == 64 * w + b) by {
                    lemma_word_or(before, 1u64 << s, b);
                    lemma_one_bit(s, b);
                    if word_bit(before, b) {
                        let j = choose|j: int| 0 <= j < i && #[trigger] p@[j] == 64 * w + b;
                        assert(p@[j] == 64 * w + b);
                    }
                    if b == s {
                        assert(p@[i as int] == 64 * w + b);
                    }
                    if exists|j: int| 0 <= j < i + 1 && #[trigger] p@[j] == 64 * w + b {
                        let j = choose|j: int| 0 <= j < i + 1 && #[trigger] p@[j] == 64 * w + b;
                        if j < i {
                            assert(p@[j] == 64 * w + b);
                        }
                    }
                }
            }
        } else {
            proof {
                assert forall|b: int| 0 <= b < 64 implies (#[trigger] word_bit(m, b) <==> exists|
                    j: int,
                |
                    0 <= j < i + 1 && #[trigger] p@[j] == 64 * w + b) by {
                    if word_bit(before, b) {
                        let j = choose|j: int| 0 <= j < i && #[trigger] p@[j] == 64 * w + b;
                        assert(p@[j] == 64 * w + b);
                    }
                    if exists|j: int| 0 <= j < i + 1 && #[trigger] p@[j] == 64 * w + b {
                        let j = choose|j: int| 0 <= j < i + 1 && #[trigger] p@[j] == 64 * w + b;
                        assert(j < i);
                        assert(p@[j] == 64 * w + b);
                    }
                }
            }
        }
        i = i + 1;
    }
    m
}

/// Whether bit `p` of a block is one of the probes of a hash.
pub open spec fn is_probe(h: u64, p: int) -> bool {
    exists|i: int| 0 <= i < 4 && p == #[trigger] probe(h, i)
}

fn remix(h: u64) -> (r: u64)
    ensures
        r as nat == remixed(h),
{
    h.wrapping_mul(0x9E37_79B9_7F4A_7C15)
}

/// The position `i` steps of `high` from `low`, within a block.
fn position(low: u64, high: u64, i: u64) -> (p: usize)
    requires
        low < 0x1_0000_0000,
        high < 0x1_0000_0000,
        i < 4,
    ensures
        p == (low + i * high) % 512,
        p < 512,
{
    assert(0 <= i * high <= 3 * 0x1_0000_0000) by (nonlinear_arith)
        requires
            0 <= i < 4,
            0 <= high < 0x1_0000_0000,
    ;
    ((low + i * high) % 512) as usize
}

/// The four positions of a hash.
fn probes(h: u64) -> (p: [usize; 4])
    ensures
        forall|i: int| 0 <= i < 4 ==> #[trigger] p@[i] == probe(h, i),
{
    let mixed = remix(h);
    let low: u64 = mixed % 0x1_0000_0000;
    let high: u64 = mixed / 0x1_0000_0000;
    let p0 = position(low, high, 0);
    let p1 = position(low, high, 1);
    let p2 = position(low, high, 2);
    let p3 = position(low, high, 3);
    [p0, p1, p2, p3]
}

/// Whether a word holds the probes of a hash that fall into it.
spec fn holds_probes(m: u64, h: u64, w: int) -> bool {
    forall|b: int| 0 <= b < 64 ==> (#[trigger] word_bit(m, b) <==> is_probe(h, 64 * w + b))
}

/// The word `w` of the mask of a hash.
fn probe_word(h: u64, p: [usize; 4], w: usize) -> (m: u64)
    requires
        w < 8,
        forall|i: int| 0 <= i < 4 ==> #[trigger] p@[i] == probe(h, i),
    ensures
        holds_probes(m, h, w as int),
{
    proof {
        assert forall|i: int| 0 <= i < 4 implies #[trigger] p@[i] < 512 by {
            lemma_probe_range(h, i);
        }
    }
    let m = mask_word(p, w);
    proof {
        assert forall|b: int| 0 <= b < 64 implies (#[trigger] word_bit(m, b) <==> is_probe(
            h,
            64 * w + b,
        )) by {
            if word_bit(m, b) {
                let i = choose|i: int| 0 <= i < 4 && #[trigger] p@[i] == 64 * w + b;
                assert(64 * w + b == probe(h, i));
            }
            if is_probe(h, 64 * w + b) {
                let i = choose|i: int| 0 <= i < 4 && 64 * w + b == #[trigger] probe(h, i);
                assert(p@[i] == 64 * w + b);
            }
        }
    }
    m
}

proof fn lemma_mask_bits(mask: Seq<u64>, h: u64)
    requires
        mask.len() == 8,
        forall|w: int| 0 <= w < 8 ==> holds_probes(#[trigger] mask[w], h, w),
    ensures
        forall|p: int|
            0 <= p < 512 ==> (#[trigger] has_bit(words_bytes(mask), p) <==> is_probe(h, p)),
{
    assert forall|p: int| 0 <= p < 512 implies (#[trigger] has_bit(words_bytes(mask), p)
        <==> is_probe(h, p)) by {
        lemma_has_bit_words(mask, p);
        assert(holds_probes(mask[p / 64], h, p / 64));
        assert(64 * (p / 64) + p % 64 == p);
        assert(word_bit(mask[p / 64], p % 64) <==> is_probe(h, p));
    }
}

/// The block of a hash, and its four bits as a block-sized mask.
pub fn block_and_mask(h: u64, n_blocks_mask: u32) -> (r: (usize, [u64; 8]))
    ensures
        r.0 == block_index(h, n_blocks_mask),
        r.0 <= n_blocks_mask,
        forall|p: int|
            0 <= p < 512 ==> (#[trigger] has_bit(words_bytes(r.1@), p) <==> is_probe(h, p)),
{
    let upper: u32 = (h / 0x1_0000_0000) as u32;
    let block: u32 = upper & n_blocks_mask;
    assert(block <= n_blocks_mask) by (bit_vector)
        requires
            block == upper & n_blocks_mask,
    ;
    let p = probes(h);
    let m0 = probe_word(h, p, 0);
    let m1 = probe_word(h, p, 1);
    let m2 = probe_word(h, p, 2);
    let m3 = probe_word(h, p, 3);
    let m4 = probe_word(h, p, 4);
    let m5 = probe_word(h, p, 5);
    let m6 = probe_word(h, p, 6);
    let m7 = probe_word(h, p, 7);
    let mask: [u64; 8] = [m0, m1, m2, m3, m4, m5, m6, m7];
    proof {
        lemma_mask_bits(mask@, h);
    }
    (block as usize, mask)
}

/// `wide::u64x4`: lane by lane, the bits of `mask` that `block` lacks, by the
/// type's `!` and `&`.
#[verifier::external_body]
fn missing_lanes(block: [u64; 4], mask: [u64; 4]) -> (r: [u64; 4])
    ensures
        forall|i: int| 0 <= i < 4 ==> #[trigger] r@[i] == mask@[i] & !block@[i],
{
    (!u64x4::new(block) & u64x4::new(mask)).to_array()
}

/// Whether every bit of `mask` is set in `block`.
fn contains_block(block: &[u64; 8], mask: &[u64; 8]) -> (r: bool)
    ensures
        r <==> forall|p: int|
            0 <= p < 512 && has_bit(words_bytes(mask@), p) ==> #[trigger] has_bit(
                words_bytes(block@),
                p,
            ),
{
    let lo = missing_lanes(
        [block[0], block[1], block[2], block[3]],
        [mask[0], mask[1], mask[2], mask[3]],
    );
    let hi = missing_lanes(
        [block[4], block[5], block[6], block[7]],
        [mask[4], mask[5], mask[6], mask[7]],
    );
    let r = lo[0] == 0 && lo[1] == 0 && lo[2] == 0 && lo[3] == 0 && hi[0] == 0 && hi[1] == 0
        && hi[2] == 0 && hi[3] == 0;
    proof {
        assert(lo@[0] == mask@[0] & !block@[0]);
        assert(lo@[1] == mask@[1] & !block@[1]);
        assert(lo@[2] == mask@[2] & !block@[2]);
        assert(lo@[3] == mask@[3] & !block@[3]);
        assert(hi@[0] == mask@[4] & !block@[4]);
        assert(hi@[1] == mask@[5] & !block@[5]);
        assert(hi@[2] == mask@[6] & !block@[6]);
        assert(hi@[3] == mask@[7] & !block@[7]);
        if r {
            assert forall|p: int| 0 <= p < 512 && has_bit(words_bytes(mask@), p) implies #[trigger] has_bit(
                words_bytes(block@),
                p,
            ) by {
                let w = p / 64;
                lemma_has_bit_words(mask@, p);
                lemma_has_bit_words(block@, p);
                assert(mask@[w] & !block@[w] == 0);
                lemma_subset_word(mask@[w], block@[w]);
            }
        } else {
            let w: int = if lo[0] != 0 {
                0
            } else if lo[1] != 0 {
                1
            } else if lo[2] != 0 {
                2
            } else if lo[3] != 0 {
                3
            } else if hi[0] != 0 {
                4
            } else if hi[1] != 0 {
                5
            } else if hi[2] != 0 {
                6
            } else {
                7
            };
            assert(mask@[w] & !block@[w] != 0);
            lemma_subset_word(mask@[w], block@[w]);
            let b = choose|b: int| 0 <= b < 64 && word_bit(mask@[w], b) && !#[trigger] word_bit(block@[w], b);
            let p = 64 * w + b;
            lemma_has_bit_words(mask@, p);
            lemma_has_bit_words(block@, p);
            assert(!has_bit(words_bytes(block@), p));
        }
    }
    r
}

// ---------------------------------------------------------------- the filter

/// A finished filter. Its view is its serialized bytes.
#[derive(Debug)]
pub struct Bloom {
    words: Arc<Vec<u64>>,
    n_blocks_mask: u32,
}

impl View for Bloom {
    type V = Seq<u8>;

    closed spec fn view(&self) -> Seq<u8> {
        words_bytes(self.words@)
    }
}

impl Clone for Bloom {
    fn clone(&self) -> (r: Self)
        ensures
            r@ == self@,
    {
        proof {
            use_type_invariant(self);
        }
        Bloom { words: share(&self.words), n_blocks_mask: self.n_blocks_mask }
    }
}

spec fn words_ok(words: Seq<u64>, n_blocks_mask: u32) -> bool {
    words.len() % 8 == 0 && is_pow2(words.len() / 8) && n_blocks_mask == mask_of(words.len() / 8)
        && 8 * words.len() <= usize::MAX
}

proof fn lemma_words_filter(words: Seq<u64>, n_blocks_mask: u32)
    requires
        words_ok(words, n_blocks_mask),
    ensures
        is_filter(words_bytes(words)),
        words_bytes(words).len() / 64 == words.len() / 8,
        n_blocks_mask == mask_of(words_bytes(words).len() / 64),
        n_blocks_mask < words.len() / 8,
{
    let n = words.len() / 8;
    assert(words.len() == 8 * n);
    assert(words_bytes(words).len() == 64 * n);
}

proof fn lemma_block_bits(words: Seq<u64>, block: Seq<u64>, at: int, p: int)
    requires
        0 <= at,
        8 * at + 8 <= words.len(),
        block == words.subrange(8 * at, 8 * at + 8),
        0 <= p < 512,
    ensures
        has_bit(words_bytes(words), 512 * at + p) == has_bit(words_bytes(block), p),
{
    lemma_has_bit_words(words, 512 * at + p);
    lemma_has_bit_words(block, p);
    assert((512 * at + p) / 64 == 8 * at + p / 64);
    assert((512 * at + p) % 64 == p % 64);
}

proof fn lemma_probe_range(h: u64, i: int)
    ensures
        0 <= probe(h, i) < 512,
{
}

proof fn lemma_words_push(words: Seq<u64>, w: u64)
    ensures
        words_bytes(words.push(w)) == words_bytes(words) + le_bytes(w as nat, 8),
{
    crate::bytes::lemma_le_bytes_len(w as nat, 8);
    let all = words_bytes(words.push(w));
    assert forall|j: int| 0 <= j < all.len() implies all[j] == (words_bytes(words) + le_bytes(
        w as nat,
        8,
    ))[j] by {
        if j < 8 * words.len() {
            assert(words.push(w)[j / 8] == words[j / 8]);
        } else {
            assert(j / 8 == words.len() && j % 8 == j - 8 * words.len());
        }
    }
    assert(all =~= words_bytes(words) + le_bytes(w as nat, 8));
}

/// The words whose bytes are `bytes`.
fn read_words(bytes: &[u8]) -> (words: Vec<u64>)
    requires
        bytes@.len() % 8 == 0,
    ensures
        words_bytes(words@) == bytes@,
        8 * words@.len() == bytes@.len(),
{
    let n_words: usize = bytes.len() / 8;
    let mut words: Vec<u64> = Vec::new();
    let mut i: usize = 0;
    proof {
        assert(words_bytes(words@) =~= bytes@.take(0));
    }
    while i < n_words
        invariant
            8 * n_words == bytes@.len(),
            bytes@.len() <= usize::MAX,
            i <= n_words,
            words@.len() == i,
            words_bytes(words@) == bytes@.take(8 * i),
        decreases n_words - i,
    {
        let word = vstd::slice::slice_subrange(bytes, 8 * i, 8 * i + 8);
        let n = read_le(word);
        proof {
            crate::bytes::le_value_round_trip(word@);
            crate::bytes::lemma_pow256_widths();
            lemma_words_push(words@, n as u64);
            assert(bytes@.take(8 * i + 8) =~= bytes@.take(8 * i) + word@);
        }
        words.push(n as u64);
        i = i + 1;
    }
    proof {
        assert(bytes@.take(8 * i) =~= bytes@);
    }
    words
}

impl Bloom {
    #[verifier::type_invariant]
    spec fn valid(self) -> bool {
        words_ok(self.words@, self.n_blocks_mask)
    }

    /// A filter's bytes are whole blocks, a power of two of them.
    pub(crate) fn note_filter(&self)
        ensures
            is_filter(self@),
    {
        proof {
            use_type_invariant(self);
            lemma_words_filter(self.words@, self.n_blocks_mask);
        }
    }

    /// The filter with these bytes. None unless they are whole blocks, a power
    /// of two of them.
    pub fn from_bytes(bytes: &[u8]) -> (r: Option<Self>)
        ensures
            r is Some <==> is_filter(bytes@),
            r matches Some(b) ==> b@ == bytes@,
    {
        if bytes.len() % BLOCK_BYTES != 0 {
            return None;
        }
        let n_blocks = bytes.len() / BLOCK_BYTES;
        if n_blocks == 0 || !power_of_two(n_blocks) {
            return None;
        }
        let words = read_words(bytes);
        let n_blocks_mask = block_mask(n_blocks);
        Some(Bloom { words: Arc::new(words), n_blocks_mask })
    }

    /// The filter's bytes.
    pub fn to_bytes(&self) -> (r: Vec<u8>)
        ensures
            r@ == self@,
    {
        let mut out: Vec<u8> = Vec::new();
        let mut i: usize = 0;
        let ghost words = self.words@;
        proof {
            assert(out@ =~= words_bytes(words.take(0)));
        }
        while i < self.words.len()
            invariant
                words == self.words@,
                i <= words.len(),
                out@ == words_bytes(words.take(i as int)),
            decreases words.len() - i,
        {
            let w: u64 = self.words[i];
            push_le(&mut out, w as u128, 8);
            proof {
                lemma_words_push(words.take(i as int), w);
                assert(words.take(i as int).push(w) =~= words.take(i as int + 1));
            }
            i = i + 1;
        }
        proof {
            assert(words.take(i as int) =~= words);
        }
        out
    }

    /// Whether `key` may have been inserted. `false` is definite.
    pub fn contains(&self, key: &[u8]) -> (r: bool)
        ensures
            r == may_contain(self@, mask_of(self@.len() / 64), key@),
    {
        proof {
            use_type_invariant(self);
            lemma_words_filter(self.words@, self.n_blocks_mask);
        }
        let h = xxh3(key);
        let (at, mask) = block_and_mask(h, self.n_blocks_mask);
        let ghost words = self.words@;
        let n_words: usize = self.words.len();
        assert(at < n_words / 8);
        let o: usize = at * BLOCK_WORDS;
        let block: [u64; 8] = [
            self.words[o],
            self.words[o + 1],
            self.words[o + 2],
            self.words[o + 3],
            self.words[o + 4],
            self.words[o + 5],
            self.words[o + 6],
            self.words[o + 7],
        ];
        let r = contains_block(&block, &mask);
        proof {
            assert(block@ =~= words.subrange(8 * at, 8 * at + 8));
            if r {
                assert forall|i: int| 0 <= i < 4 implies has_bit(
                    self@,
                    512 * block_index(h, self.n_blocks_mask) + #[trigger] probe(h, i),
                ) by {
                    lemma_probe_range(h, i);
                    let p = probe(h, i);
                    assert(is_probe(h, p));
                    assert(has_bit(words_bytes(mask@), p));
                    lemma_block_bits(words, block@, at as int, p);
                }
            } else {
                let p = choose|p: int|
                    0 <= p < 512 && has_bit(words_bytes(mask@), p) && !#[trigger] has_bit(
                        words_bytes(block@),
                        p,
                    );
                assert(is_probe(h, p));
                let i = choose|i: int| 0 <= i < 4 && p == #[trigger] probe(h, i);
                lemma_block_bits(words, block@, at as int, p);
                assert(!has_bit(self@, 512 * block_index(h, self.n_blocks_mask) + probe(h, i)));
            }
        }
        r
    }

    /// Blocks of the filter.
    pub fn n_blocks(&self) -> (n: usize)
        ensures
            n == self@.len() / 64,
            is_pow2(n as nat),
    {
        proof {
            use_type_invariant(self);
            lemma_words_filter(self.words@, self.n_blocks_mask);
        }
        self.words.len() / BLOCK_WORDS
    }

    /// Bytes of the filter.
    pub fn len(&self) -> (n: usize)
        ensures
            n == self@.len(),
    {
        proof {
            use_type_invariant(self);
            lemma_words_filter(self.words@, self.n_blocks_mask);
        }
        self.words.len() * 8
    }

    /// Whether the filter has no bytes. It always has some.
    pub fn is_empty(&self) -> (r: bool)
        ensures
            r == (self@.len() == 0),
            !r,
    {
        proof {
            use_type_invariant(self);
        }
        self.words.len() == 0
    }
}

// ---------------------------------------------------------------- the builder

/// A filter under construction. Its view is the bytes it would have.
pub struct BloomBuilder {
    words: Vec<u64>,
    n_blocks_mask: u32,
}

impl View for BloomBuilder {
    type V = Seq<u8>;

    closed spec fn view(&self) -> Seq<u8> {
        words_bytes(self.words@)
    }
}

impl BloomBuilder {
    /// Whole blocks, a power of two of them.
    pub closed spec fn wf(self) -> bool {
        words_ok(self.words@, self.n_blocks_mask)
    }

    /// An empty filter of the default size.
    pub fn new() -> (b: Self)
        ensures
            b.wf(),
            b@ == Seq::new(65536, |i: int| 0u8),
    {
        proof {
            reveal_with_fuel(is_pow2, 12);
        }
        Self::with_n_blocks(DEFAULT_N_BLOCKS)
    }

    /// An empty filter of `n_blocks` blocks, which must be a power of two.
    pub fn with_n_blocks(n_blocks: usize) -> (b: Self)
        requires
            is_pow2(n_blocks as nat),
            64 * n_blocks <= usize::MAX,
        ensures
            b.wf(),
            b@ == Seq::new(64 * n_blocks as nat, |i: int| 0u8),
    {
        let words: Vec<u64> = vec![0u64; n_blocks * BLOCK_WORDS];
        let b = BloomBuilder { words, n_blocks_mask: block_mask(n_blocks) };
        proof {
            reveal_with_fuel(le_bytes, 9);
            assert(b@ =~= Seq::new(64 * n_blocks as nat, |i: int| 0u8));
        }
        b
    }

    /// Insert `key`: set its bits, leave the others.
    pub fn insert(&mut self, key: &[u8])
        requires
            old(self).wf(),
        ensures
            final(self).wf(),
            final(self)@.len() == old(self)@.len(),
            forall|p: int|
                0 <= p < 8 * old(self)@.len() ==> (#[trigger] has_bit(final(self)@, p) <==> (has_bit(
                    old(self)@,
                    p,
                ) || is_key_bit(key@, mask_of(old(self)@.len() / 64), p))),
    {
        proof {
            lemma_words_filter(self.words@, self.n_blocks_mask);
        }
        let h = xxh3(key);
        let (at, mask) = block_and_mask(h, self.n_blocks_mask);
        let ghost words = self.words@;
        let n_words: usize = self.words.len();
        assert(at < n_words / 8);
        let o: usize = at * BLOCK_WORDS;
        let mut j: usize = 0;
        while j < 8
            invariant
                j <= 8,
                o == 8 * at,
                o + 8 <= words.len(),
                self.words@.len() == words.len(),
                self.n_blocks_mask == old(self).n_blocks_mask,
                forall|w: int|
                    0 <= w < words.len() ==> #[trigger] self.words@[w] == (if o <= w < o + j {
                        words[w] | mask@[w - o]
                    } else {
                        words[w]
                    }),
            decreases 8 - j,
        {
            let merged: u64 = self.words[o + j] | mask[j];
            self.words.set(o + j, merged);
            j = j + 1;
        }
        proof {
            lemma_words_filter(self.words@, self.n_blocks_mask);
            assert forall|p: int| 0 <= p < 8 * old(self)@.len() implies (#[trigger] has_bit(self@, p)
                <==> (has_bit(old(self)@, p) || is_key_bit(
                key@,
                mask_of(old(self)@.len() / 64),
                p,
            ))) by {
                lemma_has_bit_words(words, p);
                lemma_has_bit_words(self.words@, p);
                let w = p / 64;
                if o <= w < o + 8 {
                    let q = p - 64 * o;
                    assert(0 <= q < 512);
                    lemma_word_or(words[w], mask@[w - o], p % 64);
                    lemma_has_bit_words(mask@, q);
                    assert(q / 64 == w - o);
                    assert(q % 64 == p % 64);
                    assert(has_bit(words_bytes(mask@), q) <==> is_probe(h, q));
                    if is_probe(h, q) {
                        let i = choose|i: int| 0 <= i < 4 && q == #[trigger] probe(h, i);
                        assert(p == 512 * at + probe(h, i));
                    }
                    if is_key_bit(key@, self.n_blocks_mask, p) {
                        let i = choose|i: int| 0 <= i < 4 && p == 512 * at + #[trigger] probe(h, i);
                        assert(q == probe(h, i));
                    }
                } else {
                    if is_key_bit(key@, self.n_blocks_mask, p) {
                        let i = choose|i: int| 0 <= i < 4 && p == 512 * at + #[trigger] probe(h, i);
                        lemma_probe_range(h, i);
                        assert(false);
                    }
                }
            }
        }
    }

    /// The finished filter.
    pub fn finish(self) -> (b: Bloom)
        requires
            self.wf(),
        ensures
            b@ == self@,
    {
        Bloom { words: Arc::new(self.words), n_blocks_mask: self.n_blocks_mask }
    }

    /// Blocks of the filter.
    pub fn n_blocks(&self) -> (n: usize)
        requires
            self.wf(),
        ensures
            n == self@.len() / 64,
            is_pow2(n as nat),
    {
        proof {
            lemma_words_filter(self.words@, self.n_blocks_mask);
        }
        self.words.len() / BLOCK_WORDS
    }
}

impl Default for BloomBuilder {
    fn default() -> (b: Self)
        ensures
            b.wf(),
            b@ == Seq::new(65536, |i: int| 0u8),
    {
        Self::new()
    }
}

// ---------------------------------------------------------------- laws

/// What an insertion does to a filter: every bit of the key is set, and every
/// bit that was set stays set.
pub open spec fn is_insertion(before: Seq<u8>, after: Seq<u8>, key: Seq<u8>) -> bool {
    after.len() == before.len() && forall|p: int|
        0 <= p < 8 * before.len() ==> (#[trigger] has_bit(after, p) <==> (has_bit(before, p)
            || is_key_bit(key, mask_of(before.len() / 64), p)))
}

/// Every probe of a key falls into the filter.
proof fn lemma_probe_in_filter(bytes: Seq<u8>, h: u64, i: int)
    requires
        is_filter(bytes),
    ensures
        0 <= 512 * block_index(h, mask_of(bytes.len() / 64)) + probe(h, i) < 8 * bytes.len(),
{
    let n = bytes.len() / 64;
    let m = mask_of(n);
    let upper = (h / 0x1_0000_0000) as u32;
    assert(upper & m <= m) by (bit_vector);
    assert(is_pow2(n));
    lemma_probe_range(h, i);
}

/// An inserted key is found: there are no false negatives.
pub proof fn inserted_key_is_present(before: Seq<u8>, after: Seq<u8>, key: Seq<u8>)
    requires
        is_filter(before),
        is_insertion(before, after, key),
    ensures
        may_contain(after, mask_of(after.len() / 64), key),
{
    let h = xxh3_hash(key);
    let m = mask_of(before.len() / 64);
    assert forall|i: int| 0 <= i < 4 implies has_bit(
        after,
        512 * block_index(h, m) + #[trigger] probe(h, i),
    ) by {
        lemma_probe_in_filter(before, h, i);
        assert(is_key_bit(key, m, 512 * block_index(h, m) + probe(h, i)));
    }
}

/// A filter that has all bits of a key finds it.
pub proof fn key_bits_are_found(bytes: Seq<u8>, key: Seq<u8>)
    requires
        is_filter(bytes),
        forall|p: int|
            0 <= p < 8 * bytes.len() && is_key_bit(key, mask_of(bytes.len() / 64), p) ==> has_bit(
                bytes,
                p,
            ),
    ensures
        may_contain(bytes, mask_of(bytes.len() / 64), key),
{
    let h = xxh3_hash(key);
    let m = mask_of(bytes.len() / 64);
    assert forall|i: int| 0 <= i < 4 implies has_bit(
        bytes,
        512 * block_index(h, m) + #[trigger] probe(h, i),
    ) by {
        lemma_probe_in_filter(bytes, h, i);
        assert(is_key_bit(key, m, 512 * block_index(h, m) + probe(h, i)));
    }
}

/// A key that was found before an insertion is found after it.
pub proof fn insertion_keeps_keys(
    before: Seq<u8>,
    after: Seq<u8>,
    key: Seq<u8>,
    other: Seq<u8>,
)
    requires
        is_filter(before),
        is_insertion(before, after, key),
        may_contain(before, mask_of(before.len() / 64), other),
    ensures
        may_contain(after, mask_of(after.len() / 64), other),
{
    let h = xxh3_hash(other);
    let m = mask_of(before.len() / 64);
    assert forall|i: int| 0 <= i < 4 implies has_bit(
        after,
        512 * block_index(h, m) + #[trigger] probe(h, i),
    ) by {
        assert(has_bit(before, 512 * block_index(h, m) + probe(h, i)));
    }
}

proof fn lemma_same_bits(a: Seq<u8>, b: Seq<u8>)
    requires
        a.len() == b.len(),
        forall|p: int| 0 <= p < 8 * a.len() ==> #[trigger] has_bit(a, p) == has_bit(b, p),
    ensures
        a == b,
{
    assert forall|i: int| 0 <= i < a.len() implies a[i] == b[i] by {
        let (x, y) = (a[i], b[i]);
        assert forall|r: int| 0 <= r < 8 implies (#[trigger] (x >> (r as u8)) & 1 == 1) == ((y >> (
        r as u8)) & 1 == 1) by {
            let p = 8 * i + r;
            assert(p / 8 == i && p % 8 == r);
            assert(has_bit(a, p) == has_bit(b, p));
        }
        assert((x >> (0int as u8)) & 1 == 1 <==> (y >> (0int as u8)) & 1 == 1);
        assert((x >> (1int as u8)) & 1 == 1 <==> (y >> (1int as u8)) & 1 == 1);
        assert((x >> (2int as u8)) & 1 == 1 <==> (y >> (2int as u8)) & 1 == 1);
        assert((x >> (3int as u8)) & 1 == 1 <==> (y >> (3int as u8)) & 1 == 1);
        assert((x >> (4int as u8)) & 1 == 1 <==> (y >> (4int as u8)) & 1 == 1);
        assert((x >> (5int as u8)) & 1 == 1 <==> (y >> (5int as u8)) & 1 == 1);
        assert((x >> (6int as u8)) & 1 == 1 <==> (y >> (6int as u8)) & 1 == 1);
        assert((x >> (7int as u8)) & 1 == 1 <==> (y >> (7int as u8)) & 1 == 1);
        assert(x == y) by (bit_vector)
            requires
                ((x >> 0u8) & 1 == 1) == ((y >> 0u8) & 1 == 1),
                ((x >> 1u8) & 1 == 1) == ((y >> 1u8) & 1 == 1),
                ((x >> 2u8) & 1 == 1) == ((y >> 2u8) & 1 == 1),
                ((x >> 3u8) & 1 == 1) == ((y >> 3u8) & 1 == 1),
                ((x >> 4u8) & 1 == 1) == ((y >> 4u8) & 1 == 1),
                ((x >> 5u8) & 1 == 1) == ((y >> 5u8) & 1 == 1),
                ((x >> 6u8) & 1 == 1) == ((y >> 6u8) & 1 == 1),
                ((x >> 7u8) & 1 == 1) == ((y >> 7u8) & 1 == 1),
        ;
    }
    assert(a =~= b);
}

/// Inserting a key a second time changes nothing.
pub proof fn insertion_is_idempotent(
    before: Seq<u8>,
    once: Seq<u8>,
    twice: Seq<u8>,
    key: Seq<u8>,
)
    requires
        is_insertion(before, once, key),
        is_insertion(once, twice, key),
    ensures
        twice == once,
{
    assert forall|p: int| 0 <= p < 8 * twice.len() implies #[trigger] has_bit(twice, p) == has_bit(
        once,
        p,
    ) by {
        assert(has_bit(once, p) <==> (has_bit(before, p) || is_key_bit(
            key,
            mask_of(before.len() / 64),
            p,
        )));
    }
    lemma_same_bits(twice, once);
}

/// A filter without a set bit contains no key.
pub proof fn empty_filter_contains_nothing(bytes: Seq<u8>, key: Seq<u8>)
    requires
        forall|i: int| 0 <= i < bytes.len() ==> #[trigger] bytes[i] == 0,
    ensures
        !may_contain(bytes, mask_of(bytes.len() / 64), key),
{
    let h = xxh3_hash(key);
    let p = 512 * block_index(h, mask_of(bytes.len() / 64)) + probe(h, 0);
    if has_bit(bytes, p) {
        let r = (p % 8) as u8;
        assert((0u8 >> r) & 1 == 0) by (bit_vector);
    }
    assert(!has_bit(bytes, p));
}

/// The bitwise union of two byte strings.
pub open spec fn bytes_or(a: Seq<u8>, b: Seq<u8>) -> Seq<u8> {
    Seq::new(a.len(), |i: int| a[i] | b[i])
}

/// A union of filters contains every key that either filter contains.
pub proof fn union_keeps_keys(a: Seq<u8>, b: Seq<u8>, key: Seq<u8>)
    requires
        a.len() == b.len(),
        may_contain(a, mask_of(a.len() / 64), key) || may_contain(b, mask_of(b.len() / 64), key),
    ensures
        may_contain(bytes_or(a, b), mask_of(a.len() / 64), key),
{
    let h = xxh3_hash(key);
    let m = mask_of(a.len() / 64);
    assert forall|i: int| 0 <= i < 4 implies has_bit(
        bytes_or(a, b),
        512 * block_index(h, m) + #[trigger] probe(h, i),
    ) by {
        let p = 512 * block_index(h, m) + probe(h, i);
        assert(has_bit(a, p) || has_bit(b, p));
        let (x, y) = (a[p / 8], b[p / 8]);
        let r = (p % 8) as u8;
        assert(((x | y) >> r) & 1 == 1 <==> (x >> r) & 1 == 1 || (y >> r) & 1 == 1) by (bit_vector);
    }
}

/// A count of blocks is a power of two where it is two to some number.
pub proof fn powers_of_two(n: nat)
    ensures
        is_pow2(n) <==> exists|k: nat| #[trigger] pow2(k) == n,
    decreases n,
{
    lemma2_to64();
    if n == 1 {
        assert(pow2(0) == n);
    } else if n > 1 {
        powers_of_two(n / 2);
        if is_pow2(n) {
            let k = choose|k: nat| #[trigger] pow2(k) == n / 2;
            lemma_pow2_unfold(k + 1);
            assert(pow2(k + 1) == n);
        }
        if exists|k: nat| #[trigger] pow2(k) == n {
            let k = choose|k: nat| #[trigger] pow2(k) == n;
            assert(k > 0);
            lemma_pow2_unfold(k);
            assert(pow2((k - 1) as nat) == n / 2);
        }
    } else {
        assert forall|k: nat| #[trigger] pow2(k) != n by {
            lemma_pow2_pos(k);
        }
    }
}

/// All bits of a key lie in one block: the upper half of its hash, modulo the
/// number of blocks.
pub proof fn keys_touch_one_block(key: Seq<u8>, n_blocks: nat, p: int)
    requires
        is_pow2(n_blocks),
        n_blocks <= 0x1_0000_0000,
        is_key_bit(key, mask_of(n_blocks), p),
    ensures
        0 <= p < 512 * n_blocks,
        p / 512 == (xxh3_hash(key) as int / 0x1_0000_0000) % (n_blocks as int),
{
    let h = xxh3_hash(key);
    let i = choose|i: int|
        0 <= i < 4 && p == 512 * block_index(h, mask_of(n_blocks)) + #[trigger] probe(h, i);
    lemma_probe_range(h, i);
    powers_of_two(n_blocks);
    let k = choose|k: nat| #[trigger] pow2(k) == n_blocks;
    let upper = (h / 0x1_0000_0000) as u32;
    lemma2_to64();
    if k > 32 {
        lemma_pow2_strictly_increases(32, k);
    }
    if k < 32 {
        vstd::bits::lemma_u32_low_bits_mask_is_mod(upper, k);
        assert(vstd::bits::low_bits_mask(k) == pow2(k) - 1);
        lemma_pow2_strictly_increases(k, 32);
    } else {
        assert(upper & 0xffff_ffffu32 == upper) by (bit_vector);
    }
    vstd::arithmetic::div_mod::lemma_mod_bound(upper as int, n_blocks as int);
}

/// The four bits of a key within its block: from the lower half of the remixed
/// hash on, each the upper half of it further, round the block.
pub proof fn probes_go_round_the_block(h: u64, i: int)
    requires
        0 <= i < 4,
    ensures
        ({
            let m = h as int * 0x9E37_79B9_7F4A_7C15 % 0x1_0000_0000_0000_0000;
            &&& probe(h, i) == (m + i * (m / 0x1_0000_0000)) % 512
            &&& 0 <= probe(h, i) < 512
        }),
{
    lemma_probe_range(h, i);
    let m = remixed(h) as int;
    let low = m % 0x1_0000_0000;
    let high = m / 0x1_0000_0000;
    assert(m == 0x1_0000_0000 * high + low);
    let k: int = 0x80_0000;
    assert(m + i * high == 512 * (k * high) + (low + i * high));
    vstd::arithmetic::div_mod::lemma_mod_multiples_vanish(k * high, low + i * high, 512);
}

/// A filter finds a key just where it has all of its bits: `false` is definite,
/// and so is `true` of the bits.
pub proof fn keys_are_found_by_their_bits(bytes: Seq<u8>, key: Seq<u8>)
    requires
        is_filter(bytes),
    ensures
        may_contain(bytes, mask_of(bytes.len() / 64), key) <==> forall|p: int|
            is_key_bit(key, mask_of(bytes.len() / 64), p) ==> #[trigger] has_bit(bytes, p),
{
    let m = mask_of(bytes.len() / 64);
    if may_contain(bytes, m, key) {
        assert forall|p: int| is_key_bit(key, m, p) implies #[trigger] has_bit(bytes, p) by {
            let h = xxh3_hash(key);
            let i = choose|i: int|
                0 <= i < 4 && p == 512 * block_index(h, m) + #[trigger] probe(h, i);
            assert(has_bit(bytes, 512 * block_index(h, m) + probe(h, i)));
        }
    }
    if forall|p: int| is_key_bit(key, m, p) ==> #[trigger] has_bit(bytes, p) {
        key_bits_are_found(bytes, key);
    }
}

/// A union has just the bits that one of the two has.
pub proof fn union_has_the_bits_of_both(a: Seq<u8>, b: Seq<u8>, p: int)
    requires
        a.len() == b.len(),
    ensures
        bytes_or(a, b).len() == a.len(),
        has_bit(bytes_or(a, b), p) <==> has_bit(a, p) || has_bit(b, p),
{
    if 0 <= p < 8 * a.len() {
        let (x, y) = (a[p / 8], b[p / 8]);
        let r = (p % 8) as u8;
        assert(((x | y) >> r) & 1 == 1 <==> (x >> r) & 1 == 1 || (y >> r) & 1 == 1) by (bit_vector);
    }
}

/// A bit of a byte string is that of the number which its byte is: the bits of
/// a byte come from the least significant on.
pub proof fn bits_are_binary_digits(bytes: Seq<u8>, p: int)
    requires
        0 <= p < 8 * bytes.len(),
    ensures
        has_bit(bytes, p) <==> bytes[p / 8] as int / pow2((p % 8) as nat) as int % 2 == 1,
{
    let x = bytes[p / 8];
    let r = (p % 8) as u8;
    lemma2_to64();
    assert(r == 0 ==> ((x >> r) & 1 == 1 <==> x / 1 % 2 == 1)) by (bit_vector);
    assert(r == 1 ==> ((x >> r) & 1 == 1 <==> x / 2 % 2 == 1)) by (bit_vector);
    assert(r == 2 ==> ((x >> r) & 1 == 1 <==> x / 4 % 2 == 1)) by (bit_vector);
    assert(r == 3 ==> ((x >> r) & 1 == 1 <==> x / 8 % 2 == 1)) by (bit_vector);
    assert(r == 4 ==> ((x >> r) & 1 == 1 <==> x / 16 % 2 == 1)) by (bit_vector);
    assert(r == 5 ==> ((x >> r) & 1 == 1 <==> x / 32 % 2 == 1)) by (bit_vector);
    assert(r == 6 ==> ((x >> r) & 1 == 1 <==> x / 64 % 2 == 1)) by (bit_vector);
    assert(r == 7 ==> ((x >> r) & 1 == 1 <==> x / 128 % 2 == 1)) by (bit_vector);
}

} // verus!
