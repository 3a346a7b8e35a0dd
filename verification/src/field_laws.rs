//! Laws of the field operations: the ring laws of addition and
//! multiplication, identities, inverses and the order of the multiplicative
//! group.
use vstd::prelude::*;
use crate::gf::{gf_add, gf_mul, gf_pow, xtime};

verus! {

/// Multiplication is commutative.
#[verifier::rlimit(100)]
pub proof fn lemma_mul_commutative(a: u8, b: u8)
    ensures
        gf_mul(a, b) == gf_mul(b, a),
{
    assert(gf_mul(a, b) == gf_mul(b, a)) by (bit_vector);
}

/// Multiplication distributes over addition.
#[verifier::rlimit(100)]
pub proof fn lemma_mul_distributive(a: u8, b: u8, c: u8)
    ensures
        gf_mul(a, gf_add(b, c)) == gf_add(gf_mul(a, b), gf_mul(a, c)),
{
    assert(gf_mul(a, b ^ c) == gf_mul(a, b) ^ gf_mul(a, c)) by (bit_vector);
}

/// Multiplying by `x` commutes with multiplication.
#[verifier::rlimit(100)]
pub proof fn lemma_xtime_mul(a: u8, b: u8)
    ensures
        gf_mul(xtime(a), b) == xtime(gf_mul(a, b)),
{
    assert(gf_mul(xtime(a), b) == xtime(gf_mul(a, b))) by (bit_vector);
}

/// Multiplying by zero gives zero.
pub proof fn lemma_mul_zero(a: u8)
    ensures
        gf_mul(a, 0) == 0,
        gf_mul(0, a) == 0,
{
    assert(gf_mul(a, 0) == 0) by (bit_vector);
    assert(gf_mul(0, a) == 0) by (bit_vector);
}

proof fn lemma_mul_xtime_right(a: u8, b: u8)
    ensures
        gf_mul(a, xtime(b)) == xtime(gf_mul(a, b)),
{
    lemma_mul_commutative(a, xtime(b));
    lemma_xtime_mul(b, a);
    lemma_mul_commutative(b, a);
}

proof fn lemma_mul_select(a: u8, cond: bool, y: u8)
    ensures
        gf_mul(a, if cond { y } else { 0u8 }) == if cond { gf_mul(a, y) } else { 0u8 },
{
    lemma_mul_zero(a);
}

/// Multiplication is associative.
pub proof fn lemma_mul_associative(a: u8, b: u8, c: u8)
    ensures
        gf_mul(gf_mul(a, b), c) == gf_mul(a, gf_mul(b, c)),
{
    let m = gf_mul(a, b);
    let b1 = xtime(b);
    let b2 = xtime(b1);
    let b3 = xtime(b2);
    let b4 = xtime(b3);
    let b5 = xtime(b4);
    let b6 = xtime(b5);
    let b7 = xtime(b6);
    lemma_mul_xtime_right(a, b);
    lemma_mul_xtime_right(a, b1);
    lemma_mul_xtime_right(a, b2);
    lemma_mul_xtime_right(a, b3);
    lemma_mul_xtime_right(a, b4);
    lemma_mul_xtime_right(a, b5);
    lemma_mul_xtime_right(a, b6);
    let s0 = if c & 1u8 != 0 { b } else { 0u8 };
    let s1 = if c & 2u8 != 0 { b1 } else { 0u8 };
    let s2 = if c & 4u8 != 0 { b2 } else { 0u8 };
    let s3 = if c & 8u8 != 0 { b3 } else { 0u8 };
    let s4 = if c & 16u8 != 0 { b4 } else { 0u8 };
    let s5 = if c & 32u8 != 0 { b5 } else { 0u8 };
    let s6 = if c & 64u8 != 0 { b6 } else { 0u8 };
    let s7 = if c & 128u8 != 0 { b7 } else { 0u8 };
    lemma_mul_select(a, c & 1u8 != 0, b);
    lemma_mul_select(a, c & 2u8 != 0, b1);
    lemma_mul_select(a, c & 4u8 != 0, b2);
    lemma_mul_select(a, c & 8u8 != 0, b3);
    lemma_mul_select(a, c & 16u8 != 0, b4);
    lemma_mul_select(a, c & 32u8 != 0, b5);
    lemma_mul_select(a, c & 64u8 != 0, b6);
    lemma_mul_select(a, c & 128u8 != 0, b7);
    lemma_mul_distributive(a, s0, s1);
    lemma_mul_distributive(a, s0 ^ s1, s2);
    lemma_mul_distributive(a, s0 ^ s1 ^ s2, s3);
    lemma_mul_distributive(a, s0 ^ s1 ^ s2 ^ s3, s4);
    lemma_mul_distributive(a, s0 ^ s1 ^ s2 ^ s3 ^ s4, s5);
    lemma_mul_distributive(a, s0 ^ s1 ^ s2 ^ s3 ^ s4 ^ s5, s6);
    lemma_mul_distributive(a, s0 ^ s1 ^ s2 ^ s3 ^ s4 ^ s5 ^ s6, s7);
    assert(gf_mul(b, c) == s0 ^ s1 ^ s2 ^ s3 ^ s4 ^ s5 ^ s6 ^ s7);
}


/// One is the multiplicative identity.
pub proof fn lemma_mul_one(a: u8)
    ensures
        gf_mul(a, 1) == a,
        gf_mul(1, a) == a,
{
    assert(gf_mul(a, 1) == a) by (bit_vector);
    assert(gf_mul(1, a) == a) by (bit_vector);
}

/// Powers add: `b^(m + n) == b^m * b^n`.
pub proof fn lemma_pow_add(b: u8, m: nat, n: nat)
    ensures
        gf_pow(b, m + n) == gf_mul(gf_pow(b, m), gf_pow(b, n)),
    decreases n,
{
    if n == 0 {
        lemma_mul_one(gf_pow(b, m));
    } else {
        lemma_pow_add(b, m, (n - 1) as nat);
        assert(gf_pow(b, m + n) == gf_mul(gf_pow(b, (m + n - 1) as nat), b));
        lemma_mul_associative(gf_pow(b, m), gf_pow(b, (n - 1) as nat), b);
    }
}

proof fn lemma_pow_double_plus_one(b: u8, e: nat)
    ensures
        gf_pow(b, 2 * e + 1) == gf_mul(gf_mul(gf_pow(b, e), gf_pow(b, e)), b),
{
    lemma_pow_add(b, e, e);
    lemma_pow_add(b, e + e, 1);
    reveal_with_fuel(gf_pow, 2);
    lemma_mul_one(b);
}

/// Every nonzero element has multiplicative order dividing 255.
#[verifier::rlimit(100)]
pub proof fn lemma_order_255(a: u8)
    requires
        a != 0,
    ensures
        gf_pow(a, 255) == 1,
{
    reveal_with_fuel(gf_pow, 2);
    lemma_mul_one(a);
    let y1 = gf_pow(a, 1);
    lemma_pow_double_plus_one(a, 1);
    lemma_pow_double_plus_one(a, 3);
    lemma_pow_double_plus_one(a, 7);
    lemma_pow_double_plus_one(a, 15);
    lemma_pow_double_plus_one(a, 31);
    lemma_pow_double_plus_one(a, 63);
    lemma_pow_double_plus_one(a, 127);
    let z1 = gf_mul(y1, y1);
    let y2 = gf_mul(z1, a);
    let z2 = gf_mul(y2, y2);
    let y3 = gf_mul(z2, a);
    let z3 = gf_mul(y3, y3);
    let y4 = gf_mul(z3, a);
    let z4 = gf_mul(y4, y4);
    let y5 = gf_mul(z4, a);
    let z5 = gf_mul(y5, y5);
    let y6 = gf_mul(z5, a);
    let z6 = gf_mul(y6, y6);
    let y7 = gf_mul(z6, a);
    let z7 = gf_mul(y7, y7);
    let y8 = gf_mul(z7, a);
    assert(gf_pow(a, 255) == y8);
    assert(y8 == 1u8) by (bit_vector)
        requires
            a != 0u8,
            y1 == a,
            z1 == gf_mul(y1, y1),
            y2 == gf_mul(z1, a),
            z2 == gf_mul(y2, y2),
            y3 == gf_mul(z2, a),
            z3 == gf_mul(y3, y3),
            y4 == gf_mul(z3, a),
            z4 == gf_mul(y4, y4),
            y5 == gf_mul(z4, a),
            z5 == gf_mul(y5, y5),
            y6 == gf_mul(z5, a),
            z6 == gf_mul(y6, y6),
            y7 == gf_mul(z6, a),
            z7 == gf_mul(y7, y7),
            y8 == gf_mul(z7, a),
    ;
}

/// Every nonzero element has a multiplicative inverse, namely `a^254`.
pub proof fn lemma_inverse(a: u8)
    requires
        a != 0,
    ensures
        gf_mul(a, gf_pow(a, 254)) == 1,
        gf_mul(gf_pow(a, 254), a) == 1,
{
    lemma_order_255(a);
    assert(gf_pow(a, 255) == gf_mul(gf_pow(a, 254), a));
    lemma_mul_commutative(a, gf_pow(a, 254));
}

/// Zero is the additive identity.
pub proof fn lemma_add_zero(a: u8)
    ensures
        gf_add(a, 0) == a,
        gf_add(0, a) == a,
{
    assert(a ^ 0 == a) by (bit_vector);
    assert(0 ^ a == a) by (bit_vector);
}

/// Every element is its own additive inverse.
pub proof fn lemma_add_self(a: u8)
    ensures
        gf_add(a, a) == 0,
{
    assert(a ^ a == 0) by (bit_vector);
}

/// Addition is commutative and associative.
pub proof fn lemma_add_commutative_associative(a: u8, b: u8, c: u8)
    ensures
        gf_add(a, b) == gf_add(b, a),
        gf_add(gf_add(a, b), c) == gf_add(a, gf_add(b, c)),
{
    assert(a ^ b == b ^ a) by (bit_vector);
    assert((a ^ b) ^ c == a ^ (b ^ c)) by (bit_vector);
}

} // verus!
