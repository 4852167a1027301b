use vstd::arithmetic::power2::{lemma2_to64, lemma_pow2_adds, lemma_pow2_pos, lemma_pow2_strictly_increases, pow2};
use vstd::arithmetic::mul::lemma_mul_strict_inequality;
use vstd::prelude::*;

use crate::error::Error;

verus! {

/// The scale of the fixed-point unit interval: `1.0` is `ONE`.
pub const ONE: u64 = 0x4000_0000_0000_0000;

/// The IEEE-754 binary64 encoding of `1.0`.
pub const ONE_BITS: u64 = 0x3FF0_0000_0000_0000;

/// `2^52`: the place of the lowest exponent bit of a binary64 encoding.
pub const MANTISSA_RANGE: u64 = 0x10_0000_0000_0000;

/// The biased exponent field of a binary64 encoding (sign bit clear).
pub open spec fn exponent_field(bits: u64) -> nat {
    (bits / MANTISSA_RANGE) as nat
}

/// The significand of a binary64 encoding, hidden bit included.
pub open spec fn significand(bits: u64) -> nat {
    if exponent_field(bits) == 0 {
        (bits % MANTISSA_RANGE) as nat
    } else {
        (bits % MANTISSA_RANGE + MANTISSA_RANGE) as nat
    }
}

/// The sign bit of a binary64 encoding.
pub const SIGN_BIT: u64 = 0x8000_0000_0000_0000;

/// The exponent field of infinities and NaNs.
pub const EXPONENT_SPECIAL: u64 = 2047;

/// The exponent that scales the significand, `e` in
/// `x = significand * 2^(e - 1075)`: the exponent field, read as `1` for
/// subnormal numbers.
pub open spec fn scale_exponent(bits: u64) -> nat {
    if exponent_field(bits) == 0 {
        1
    } else {
        exponent_field(bits)
    }
}

/// True when `bits` encode a number `x` with `0 <= x <= 1`: the sign bit is
/// clear (so `-0.0` counts as negative), the encoding is neither an infinity
/// nor a NaN, and `significand * 2^(e - 1075) <= 1`.
pub open spec fn in_unit_interval(bits: u64) -> bool {
    &&& bits < SIGN_BIT
    &&& exponent_field(bits) < EXPONENT_SPECIAL
    &&& significand(bits) * pow2(scale_exponent(bits)) <= pow2(1075)
}

/// `floor(x * 2^62)` for the number `x = significand * 2^(e - 1075)` that
/// `bits` encode.
pub open spec fn fixed_of_bits(bits: u64) -> nat {
    let e = scale_exponent(bits);
    if e >= 1013 {
        significand(bits) * pow2((e - 1013) as nat)
    } else {
        significand(bits) / pow2((1013 - e) as nat)
    }
}

/// Reads a success probability from the IEEE-754 binary64 encoding of a
/// number, as `f64::to_bits` gives it, into the fixed-point scale `ONE`.
/// Fails exactly when the number is negative (a set sign bit, `-0.0`
/// included), above one, or not a number.
pub fn probability_from_bits(bits: u64) -> (r: Result<u64, Error>)
    ensures
        r is Ok <==> in_unit_interval(bits),
        r is Err ==> r == Err::<u64, Error>(Error::InvalidProbability),
        r is Ok ==> r->Ok_0 == fixed_of_bits(bits) && r->Ok_0 <= ONE,
{
    proof {
        lemma_unit_interval_bits(bits);
    }
    if bits > ONE_BITS {
        return Err(Error::InvalidProbability);
    }
    let field = bits / MANTISSA_RANGE;
    let mantissa = bits % MANTISSA_RANGE;
    let e: u64 = if field == 0 { 1 } else { field };
    let sig: u64 = if field == 0 { mantissa } else { mantissa + MANTISSA_RANGE };
    assert(e <= 1023 && sig <= MANTISSA_RANGE * 2);
    assert(e == 1023 ==> sig == MANTISSA_RANGE);
    proof {
        lemma2_to64();
    }
    if e >= 1013 {
        let mut v: u64 = sig;
        let mut k: u64 = 0;
        while k < e - 1013
            invariant
                k <= e - 1013,
                e <= 1023,
                e == 1023 ==> sig == MANTISSA_RANGE,
                sig <= MANTISSA_RANGE * 2,
                v == sig * pow2(k as nat),
                v <= ONE,
            decreases e - 1013 - k,
        {
            proof {
                lemma_pow2_pos(k as nat);
                lemma2_to64();
                lemma_pow2_adds(k as nat, 1);
                let pk = pow2(k as nat);
                let pk1 = pow2((k + 1) as nat);
                assert(sig * pk1 == (sig * pk) * 2) by (nonlinear_arith)
                    requires
                        pk1 == pk * 2,
                ;
                // The largest significand for each exponent fits the scale.
                assert(sig * pow2((k + 1) as nat) <= ONE) by {
                    lemma_bound(sig, e, (k + 1) as nat);
                }
            }
            v = v * 2;
            k = k + 1;
        }
        Ok(v)
    } else {
        let mut v: u64 = sig;
        let mut k: u64 = 0;
        while k < 1013 - e
            invariant
                k <= 1013 - e,
                v == sig as nat / pow2(k as nat),
                v <= MANTISSA_RANGE * 2,
            decreases 1013 - e - k,
        {
            proof {
                lemma_pow2_pos(k as nat);
                lemma2_to64();
                lemma_pow2_adds(k as nat, 1);
                vstd::arithmetic::div_mod::lemma_div_denominator(sig as int, pow2(k as nat) as int, 2);
            }
            v = v / 2;
            k = k + 1;
        }
        Ok(v)
    }
}

/// Among encodings with a clear sign bit the order of the encodings is the
/// order of the numbers, and infinities and NaNs come last: the numbers in
/// the unit interval are exactly those encoded at or below `1.0`.
proof fn lemma_unit_interval_bits(bits: u64)
    ensures
        in_unit_interval(bits) <==> bits <= ONE_BITS,
{
    lemma2_to64();
    let field = exponent_field(bits);
    let e = scale_exponent(bits);
    let sig = significand(bits);
    lemma_pow2_adds(52, 1023);
    lemma_pow2_adds(53, 1022);
    lemma_pow2_adds(32, 20);
    lemma_pow2_adds(52, 1);
    assert(pow2(52) == MANTISSA_RANGE && pow2(53) == 2 * MANTISSA_RANGE);
    assert(bits % MANTISSA_RANGE < MANTISSA_RANGE);
    assert(field == 0 ==> sig < MANTISSA_RANGE);
    assert(field != 0 ==> MANTISSA_RANGE <= sig < 2 * MANTISSA_RANGE);
    if bits < SIGN_BIT && field < EXPONENT_SPECIAL {
        if field <= 1022 {
            // Below 1.0: the significand is below 2^53, the scale at most 2^1022.
            assert(bits <= ONE_BITS);
            if e < 1022 {
                lemma_pow2_strictly_increases(e, 1022);
            }
            lemma_pow2_pos(e);
            let pe = pow2(e);
            let pm = pow2(1022);
            assert(sig * pe < pow2(53) * pm) by (nonlinear_arith)
                requires
                    sig < pow2(53),
                    0 < pe <= pm,
            ;
            assert(in_unit_interval(bits));
        } else if field == 1023 {
            let pe = pow2(1023);
            lemma_pow2_pos(1023);
            if bits == ONE_BITS {
                assert(sig == pow2(52));
                assert(in_unit_interval(bits));
            } else {
                assert(bits > ONE_BITS);
                assert(sig > pow2(52));
                lemma_mul_strict_inequality(pow2(52) as int, sig as int, pe as int);
                assert(!in_unit_interval(bits));
            }
        } else {
            // Above 1.0: the significand is at least 2^52, the scale at least 2^1024.
            assert(bits > ONE_BITS);
            lemma_pow2_strictly_increases(1023, e);
            let pe = pow2(e);
            let pm = pow2(1023);
            lemma_pow2_pos(1023);
            assert(sig * pe > pow2(52) * pm) by (nonlinear_arith)
                requires
                    sig >= pow2(52) > 0,
                    pe > pm > 0,
            ;
            assert(!in_unit_interval(bits));
        }
    } else {
        assert(bits > ONE_BITS);
    }
}

proof fn lemma_bound(sig: u64, e: u64, k: nat)
    requires
        e <= 1023,
        k <= e - 1013,
        e == 1023 ==> sig == MANTISSA_RANGE,
        sig <= MANTISSA_RANGE * 2,
    ensures
        sig * pow2(k) <= ONE,
{
    lemma2_to64();
    let top: nat = if e == 1023 { 10 } else { 9 };
    if k < top {
        lemma_pow2_strictly_increases(k, top);
    }
    let pk = pow2(k);
    assert(pk <= pow2(top));
    if e == 1023 {
        assert(sig * pk <= MANTISSA_RANGE * 1024) by (nonlinear_arith)
            requires
                sig == MANTISSA_RANGE,
                pk <= 1024,
        ;
    } else {
        assert(sig * pk <= MANTISSA_RANGE * 2 * 512) by (nonlinear_arith)
            requires
                sig <= MANTISSA_RANGE * 2,
                pk <= 512,
        ;
    }
}

} // verus!
