//! Numeric equality of JSON numbers. Every representable number — an
//! integer or a finite IEEE-754 double — is a dyadic rational; scaling by
//! 2^1074 (the smallest subnormal double is 2^-1074) turns each into an
//! integer, and two numbers are numerically equal exactly when those
//! integers agree. So `1` and `1.0` compare equal while `1` and `1.5` do
//! not.

use vstd::prelude::*;
use vstd::arithmetic::power2::{lemma2_to64, lemma2_to64_rest, lemma_pow2_pos, lemma_pow2_adds, lemma_pow2_unfold, lemma_pow2_strictly_increases, pow2};
use vstd::arithmetic::mul::{lemma_mul_equality_converse, lemma_mul_is_associative, lemma_mul_is_commutative, lemma_mul_strictly_positive, lemma_mul_unary_negation};
use crate::value::Number;

verus! {

/// The numeric value of a double, read off its bit pattern and scaled by
/// 2^1074: sign, biased exponent and mantissa fields as IEEE 754 lays
/// them out, subnormals included.
pub open spec fn float_val(bits: u64) -> int {
    let sign = bits >> 63;
    let e = (bits >> 52) & 0x7ff;
    let m = (bits & 0xf_ffff_ffff_ffff) as int;
    let mag: int = if e == 0 {
        m
    } else {
        (m + pow2(52)) * pow2((e - 1) as nat)
    };
    if sign == 1 {
        -mag
    } else {
        mag
    }
}

/// The numeric value of a number, scaled by 2^1074.
pub open spec fn num_val(n: Number) -> int {
    match n {
        Number::PosInt(u) => (u as int) * (pow2(1074) as int),
        Number::NegInt(i) => (i as int) * (pow2(1074) as int),
        Number::Float(bits) => float_val(bits),
    }
}

/// A signed dyadic magnitude: `±m·2^k`.
pub open spec fn dval(neg: bool, m: int, k: nat) -> int {
    if neg {
        -(m * pow2(k))
    } else {
        m * pow2(k)
    }
}

/// The sign, magnitude and scale fields of a number, not yet canonical.
fn decompose(n: Number) -> (d: (bool, u64, u32))
    ensures
        num_val(n) == dval(d.0, d.1 as int, d.2 as nat),
        d.2 <= 2046,
{
    match n {
        Number::PosInt(u) => (false, u, 1074),
        Number::NegInt(i) => {
            if i >= 0 {
                (false, i as u64, 1074)
            } else {
                let mag = (-(i as i128)) as u64;
                proof {
                    lemma_mul_unary_negation(i as int, pow2(1074) as int);
                }
                (true, mag, 1074)
            }
        },
        Number::Float(bits) => {
            let s = bits >> 63;
            let e = (bits >> 52) & 0x7ff;
            let m = bits & 0xf_ffff_ffff_ffff;
            proof {
                assert(m <= 0xf_ffff_ffff_ffff && e <= 0x7ff && (s == 0 || s == 1)) by (bit_vector)
                    requires
                        s == bits >> 63,
                        e == (bits >> 52) & 0x7ff,
                        m == bits & 0xf_ffff_ffff_ffff,
                ;
                lemma2_to64();
                lemma2_to64_rest();
            }
            if e == 0 {
                (s == 1, m, 0)
            } else {
                (s == 1, m + 0x10_0000_0000_0000, (e - 1) as u32)
            }
        },
    }
}

/// The canonical triple of a number: sign, odd-or-zero magnitude, scale.
fn to_canon(n: Number) -> (d: (bool, u64, u32))
    ensures
        num_val(n) == dval(d.0, d.1 as int, d.2 as nat),
        d.1 == 0 || d.1 % 2 == 1,
{
    let (neg, m0, k0) = decompose(n);
    let mut m = m0;
    let mut k = k0;
    proof {
        lemma2_to64_rest();
        if 2110 - k0 != 64 {
            lemma_pow2_strictly_increases(64, (2110 - k0) as nat);
        }
    }
    while m != 0 && m % 2 == 0
        invariant
            dval(neg, m as int, k as nat) == num_val(n),
            k <= 2110,
            (m as int) < pow2((2110 - k) as nat),
        decreases m,
    {
        proof {
            assert(m >= 2);
            lemma2_to64();
            if 2110 - k < 2 {
                if 2110 - k == 0 {
                    assert(pow2(0) == 1);
                } else {
                    assert(pow2(1) == 2);
                }
                assert(false);
            }
            lemma_pow2_unfold((k + 1) as nat);
            assert((m / 2) as int * (2 * pow2(k as nat)) == (m as int) * pow2(k as nat))
                by (nonlinear_arith)
                requires
                    m % 2 == 0,
            ;
            lemma_pow2_unfold((2110 - k) as nat);
        }
        m = m / 2;
        k = k + 1;
    }
    (neg, m, k)
}

proof fn lemma_cancel_pow2(m1: int, m2: int, k1: nat, k2: nat)
    requires
        k1 <= k2,
        m1 * pow2(k1) == m2 * pow2(k2),
    ensures
        m1 == m2 * pow2((k2 - k1) as nat),
{
    let d = (k2 - k1) as nat;
    lemma_pow2_adds(d, k1);
    assert(m2 * (pow2(d) * pow2(k1)) == (m2 * pow2(d)) * pow2(k1)) by {
        lemma_mul_is_associative(m2, pow2(d) as int, pow2(k1) as int);
    }
    lemma_pow2_pos(k1);
    lemma_mul_is_commutative(m1, pow2(k1) as int);
    lemma_mul_is_commutative(m2 * pow2(d), pow2(k1) as int);
    lemma_mul_equality_converse(pow2(k1) as int, m1, m2 * pow2(d));
}

/// Two canonical triples stand for the same value exactly when both are
/// zero or they agree componentwise.
proof fn lemma_canon_eq(n1: bool, m1: int, k1: nat, n2: bool, m2: int, k2: nat)
    requires
        m1 >= 0,
        m2 >= 0,
        m1 == 0 || m1 % 2 == 1,
        m2 == 0 || m2 % 2 == 1,
    ensures
        (dval(n1, m1, k1) == dval(n2, m2, k2)) <==> ((m1 == 0 && m2 == 0) || (n1 == n2 && m1 == m2
            && k1 == k2)),
{
    lemma_pow2_pos(k1);
    lemma_pow2_pos(k2);
    if m1 == 0 || m2 == 0 {
        if m1 != 0 {
            lemma_mul_strictly_positive(m1, pow2(k1) as int);
        }
        if m2 != 0 {
            lemma_mul_strictly_positive(m2, pow2(k2) as int);
        }
    } else {
        lemma_mul_strictly_positive(m1, pow2(k1) as int);
        lemma_mul_strictly_positive(m2, pow2(k2) as int);
        if dval(n1, m1, k1) == dval(n2, m2, k2) {
            assert(n1 == n2);
            assert(m1 * pow2(k1) == m2 * pow2(k2));
            if k1 < k2 {
                lemma_cancel_pow2(m1, m2, k1, k2);
                lemma_pow2_unfold((k2 - k1) as nat);
                assert(m1 == m2 * (2 * pow2((k2 - k1 - 1) as nat)));
                assert(m1 == 2 * (m2 * pow2((k2 - k1 - 1) as nat))) by {
                    lemma_mul_is_associative(m2, 2, pow2((k2 - k1 - 1) as nat) as int);
                    lemma_mul_is_commutative(m2, 2);
                    lemma_mul_is_associative(2, m2, pow2((k2 - k1 - 1) as nat) as int);
                }
                assert(m1 % 2 == 0);
                assert(false);
            }
            if k2 < k1 {
                lemma_cancel_pow2(m2, m1, k2, k1);
                lemma_pow2_unfold((k1 - k2) as nat);
                assert(m2 == m1 * (2 * pow2((k1 - k2 - 1) as nat)));
                assert(m2 == 2 * (m1 * pow2((k1 - k2 - 1) as nat))) by {
                    lemma_mul_is_associative(m1, 2, pow2((k1 - k2 - 1) as nat) as int);
                    lemma_mul_is_commutative(m1, 2);
                    lemma_mul_is_associative(2, m1, pow2((k1 - k2 - 1) as nat) as int);
                }
                assert(m2 % 2 == 0);
                assert(false);
            }
            lemma2_to64();
            lemma_cancel_pow2(m1, m2, k1, k2);
        }
    }
}

/// Numeric equality of two numbers: value equality, not representation
/// equality, so an integer and a double with the same value are equal.
pub fn num_eq(a: Number, b: Number) -> (r: bool)
    ensures
        r == (num_val(a) == num_val(b)),
{
    let (n1, m1, k1) = to_canon(a);
    let (n2, m2, k2) = to_canon(b);
    proof {
        lemma_canon_eq(n1, m1 as int, k1 as nat, n2, m2 as int, k2 as nat);
    }
    if m1 == 0 && m2 == 0 {
        true
    } else {
        n1 == n2 && m1 == m2 && k1 == k2
    }
}

} // verus!
