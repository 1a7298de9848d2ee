//! The numbers that floating-point bit patterns stand for, as IEEE 754 has them.

use vstd::arithmetic::power2::{
    lemma2_to64, lemma2_to64_rest, lemma_pow2_pos, lemma_pow2_strictly_increases,
    lemma_pow2_unfold, pow2,
};
use vstd::prelude::*;

verus! {

/// The magnitude that exponent and fraction stand for, where the fraction has
/// this many bits, in units of the least positive number. Without an exponent
/// it is the fraction; with one, a leading bit stands before the fraction, and
/// every step of the exponent doubles it. The infinities count as the number
/// that follows on the greatest one.
pub open spec fn magnitude(bits: nat, fraction: nat) -> nat {
    let exponent = bits / pow2(fraction);
    let low = bits % pow2(fraction);
    if exponent == 0 {
        low
    } else {
        (pow2(fraction) + low) * pow2((exponent - 1) as nat)
    }
}

/// The number of a single-precision pattern: a sign, eight bits of exponent and
/// 23 of fraction.
pub open spec fn number32(bits: u32) -> int {
    if bits < 0x8000_0000 {
        magnitude(bits as nat, 23) as int
    } else {
        -magnitude((bits - 0x8000_0000) as nat, 23)
    }
}

/// The number of a double-precision pattern: a sign, eleven bits of exponent
/// and 52 of fraction.
pub open spec fn number64(bits: u64) -> int {
    if bits < 0x8000_0000_0000_0000 {
        magnitude(bits as nat, 52) as int
    } else {
        -magnitude((bits - 0x8000_0000_0000_0000) as nat, 52)
    }
}

/// That a single-precision pattern is no number: the exponent is all ones, and
/// the fraction is not zero.
pub open spec fn is_nan32(bits: u32) -> bool {
    bits as int / 0x80_0000 % 0x100 == 0xff && bits as int % 0x80_0000 != 0
}

/// That a double-precision pattern is no number.
pub open spec fn is_nan64(bits: u64) -> bool {
    bits as int / 0x10_0000_0000_0000 % 0x800 == 0x7ff && bits as int % 0x10_0000_0000_0000 != 0
}

/// Of two patterns without a sign the greater one has the greater magnitude.
pub proof fn magnitude_grows(a: nat, b: nat, fraction: nat)
    requires
        a < b,
    ensures
        magnitude(a, fraction) < magnitude(b, fraction),
{
    let p = pow2(fraction);
    lemma_pow2_pos(fraction);
    let (ea, ma) = (a / p, a % p);
    let (eb, mb) = (b / p, b % p);
    vstd::arithmetic::div_mod::lemma_fundamental_div_mod(a as int, p as int);
    vstd::arithmetic::div_mod::lemma_fundamental_div_mod(b as int, p as int);
    vstd::arithmetic::div_mod::lemma_mod_bound(a as int, p as int);
    vstd::arithmetic::div_mod::lemma_mod_bound(b as int, p as int);
    vstd::arithmetic::div_mod::lemma_div_is_ordered(a as int, b as int, p as int);
    if ea == eb {
        assert(ma < mb);
        if ea > 0 {
            let q = pow2((ea - 1) as nat);
            lemma_pow2_pos((ea - 1) as nat);
            assert((p + ma) * q < (p + mb) * q) by (nonlinear_arith)
                requires
                    ma < mb,
                    q > 0,
            ;
        }
    } else {
        let q = pow2((eb - 1) as nat);
        lemma_pow2_pos((eb - 1) as nat);
        assert(p <= p * q <= (p + mb) * q) by (nonlinear_arith)
            requires
                q > 0,
                p > 0,
        ;
        if ea > 0 {
            let r = pow2((ea - 1) as nat);
            lemma_pow2_pos((ea - 1) as nat);
            lemma_pow2_unfold(ea);
            if ea < eb - 1 {
                lemma_pow2_strictly_increases(ea, (eb - 1) as nat);
            }
            assert((p + ma) * r < p * (2 * r)) by (nonlinear_arith)
                requires
                    ma < p,
                    r > 0,
            ;
            assert(p * (2 * r) <= p * q) by (nonlinear_arith)
                requires
                    2 * r <= q,
                    p > 0,
            ;
        }
    }
}

/// Zero is the magnitude of the pattern zero alone.
pub proof fn magnitude_of_zero(fraction: nat)
    ensures
        magnitude(0, fraction) == 0,
{
    lemma_pow2_pos(fraction);
    vstd::arithmetic::div_mod::lemma_div_basics(pow2(fraction) as int);
    vstd::arithmetic::div_mod::lemma_small_mod(0, pow2(fraction));
}

proof fn lemma_order(a: nat, b: nat, fraction: nat)
    ensures
        magnitude(a, fraction) < magnitude(b, fraction) <==> a < b,
        magnitude(a, fraction) == magnitude(b, fraction) <==> a == b,
        magnitude(a, fraction) == 0 <==> a == 0,
{
    if a < b {
        magnitude_grows(a, b, fraction);
    } else if b < a {
        magnitude_grows(b, a, fraction);
    }
    magnitude_of_zero(fraction);
    if 0 < a {
        magnitude_grows(0, a, fraction);
    }
}

/// Single-precision numbers as patterns: the sign first, then the magnitude.
pub proof fn number32_by_pattern(a: u32, b: u32)
    ensures
        number32(a) < number32(b) <==> {
            let (x, y) = (a as int % 0x8000_0000, b as int % 0x8000_0000);
            if a < 0x8000_0000 {
                b < 0x8000_0000 && x < y
            } else if b < 0x8000_0000 {
                x > 0 || y > 0
            } else {
                x > y
            }
        },
{
    let (x, y) = ((a as int % 0x8000_0000) as nat, (b as int % 0x8000_0000) as nat);
    lemma_order(x, y, 23);
    lemma_order(y, x, 23);
}

/// Double-precision numbers as patterns: the sign first, then the magnitude.
pub proof fn number64_by_pattern(a: u64, b: u64)
    ensures
        number64(a) < number64(b) <==> {
            let (x, y) = (a as int % 0x8000_0000_0000_0000, b as int % 0x8000_0000_0000_0000);
            if a < 0x8000_0000_0000_0000 {
                b < 0x8000_0000_0000_0000 && x < y
            } else if b < 0x8000_0000_0000_0000 {
                x > 0 || y > 0
            } else {
                x > y
            }
        },
{
    let (x, y) = (
        (a as int % 0x8000_0000_0000_0000) as nat,
        (b as int % 0x8000_0000_0000_0000) as nat,
    );
    lemma_order(x, y, 52);
    lemma_order(y, x, 52);
}

/// The units of the two precisions: how many of them make one, and minus one.
pub proof fn units_of_numbers()
    ensures
        number32(0x3f80_0000) == pow2(149),
        number32(0xbf80_0000) == -pow2(149),
        number64(0x3ff0_0000_0000_0000) == pow2(1074),
        number64(0xbff0_0000_0000_0000) == -pow2(1074),
{
    lemma2_to64();
    lemma2_to64_rest();
    vstd::arithmetic::power2::lemma_pow2_adds(23, 126);
    vstd::arithmetic::power2::lemma_pow2_adds(52, 1022);
}

} // verus!
