//! Arithmetic in the Galois field of 256 elements built on the irreducible
//! polynomial x^8 + x^4 + x^3 + x^2 + 1, and polynomials over that field.
use vstd::prelude::*;
use vstd::slice::slice_to_vec;

verus! {

/// Sum of two field elements.
pub open spec fn gf_add(a: u8, b: u8) -> u8 {
    a ^ b
}

/// `a` multiplied by the polynomial `x`, reduced by the field polynomial.
pub open spec fn xtime(a: u8) -> u8 {
    if a >> 7u8 == 1 {
        (a << 1u8) ^ 0x1du8
    } else {
        a << 1u8
    }
}

/// Product of two field elements, in shift-and-add form: the sum of
/// `a * x^i` over the bits `i` set in `b`.
pub open spec fn gf_mul(a: u8, b: u8) -> u8 {
    let a1 = xtime(a);
    let a2 = xtime(a1);
    let a3 = xtime(a2);
    let a4 = xtime(a3);
    let a5 = xtime(a4);
    let a6 = xtime(a5);
    let a7 = xtime(a6);
    (if b & 1u8 != 0 { a } else { 0u8 })
    ^ (if b & 2u8 != 0 { a1 } else { 0u8 })
    ^ (if b & 4u8 != 0 { a2 } else { 0u8 })
    ^ (if b & 8u8 != 0 { a3 } else { 0u8 })
    ^ (if b & 16u8 != 0 { a4 } else { 0u8 })
    ^ (if b & 32u8 != 0 { a5 } else { 0u8 })
    ^ (if b & 64u8 != 0 { a6 } else { 0u8 })
    ^ (if b & 128u8 != 0 { a7 } else { 0u8 })
}

/// The state `(a * x^n, partial product)` after `n` steps of shift-and-add
/// multiplication of `a` by `b`.
pub open spec fn mul_steps(a: u8, b: u8, n: nat) -> (u8, u8)
    decreases n,
{
    if n == 0 {
        (a, 0u8)
    } else {
        let (an, rn) = mul_steps(a, b, (n - 1) as nat);
        let r = if (b >> ((n - 1) as u8)) & 1u8 == 1u8 { rn ^ an } else { rn };
        (xtime(an), r)
    }
}

spec fn mul_unrolled(a: u8, b: u8) -> u8 {
    let a1 = xtime(a);
    let a2 = xtime(a1);
    let a3 = xtime(a2);
    let a4 = xtime(a3);
    let a5 = xtime(a4);
    let a6 = xtime(a5);
    let a7 = xtime(a6);
    let r1 = if (b >> 0u8) & 1u8 == 1u8 { 0u8 ^ a } else { 0u8 };
    let r2 = if (b >> 1u8) & 1u8 == 1u8 { r1 ^ a1 } else { r1 };
    let r3 = if (b >> 2u8) & 1u8 == 1u8 { r2 ^ a2 } else { r2 };
    let r4 = if (b >> 3u8) & 1u8 == 1u8 { r3 ^ a3 } else { r3 };
    let r5 = if (b >> 4u8) & 1u8 == 1u8 { r4 ^ a4 } else { r4 };
    let r6 = if (b >> 5u8) & 1u8 == 1u8 { r5 ^ a5 } else { r5 };
    let r7 = if (b >> 6u8) & 1u8 == 1u8 { r6 ^ a6 } else { r6 };
    if (b >> 7u8) & 1u8 == 1u8 { r7 ^ a7 } else { r7 }
}

#[verifier::rlimit(100)]
proof fn lemma_mul_steps_complete(a: u8, b: u8)
    ensures
        mul_steps(a, b, 8).1 == gf_mul(a, b),
{
    reveal_with_fuel(mul_steps, 9);
    assert(mul_steps(a, b, 8).1 == mul_unrolled(a, b));
    assert(mul_unrolled(a, b) == gf_mul(a, b)) by (bit_vector);
}

/// Adds two field elements.
pub fn add(a: u8, b: u8) -> (r: u8)
    ensures
        r == gf_add(a, b),
{
    a ^ b
}

/// Multiplies two field elements.
pub fn mul(a: u8, b: u8) -> (r: u8)
    ensures
        r == gf_mul(a, b),
{
    let ghost a0 = a;
    let mut a = a;
    let mut res: u8 = 0;
    let mut i: u8 = 0;
    while i < 8
        invariant
            i <= 8,
            (a, res) == mul_steps(a0, b, i as nat),
        decreases 8 - i,
    {
        // If the current bit of `b` is set add `a` to the result
        if (b >> i) & 1 == 1 {
            res = self::add(res, a);
        }
        // Carry the leftmost bit of `a`
        let carry = a >> 7;
        // Shift `a` left. This is equivalent to multiplying the polynomial by x
        a = a << 1;
        // If the carried bit is set it is cancelled out by adding the irreducible polynomial
        if carry == 1 {
            a = self::add(a, 0b00011101);
        }
        i += 1;
    }
    proof {
        lemma_mul_steps_complete(a0, b);
    }
    res
}

/// `b` raised to the power `e`: the product of `e` copies of `b`.
pub open spec fn gf_pow(b: u8, e: nat) -> u8
    decreases e,
{
    if e == 0 {
        1u8
    } else {
        gf_mul(gf_pow(b, (e - 1) as nat), b)
    }
}

/// Raises a field element to a power.
pub fn pow(b: u8, e: usize) -> (r: u8)
    ensures
        r == gf_pow(b, e as nat),
{
    let mut res: u8 = 1;
    let mut i: usize = 0;
    while i < e
        invariant
            i <= e,
            res == gf_pow(b, i as nat),
        decreases e - i,
    {
        res = self::mul(res, b);
        i += 1;
    }
    res
}

// ---------------------------------------------------------------------------
// Polynomials. A polynomial is a sequence of coefficients, highest degree
// first.
// ---------------------------------------------------------------------------

/// `n` zero coefficients.
pub open spec fn zeros(n: nat) -> Seq<u8> {
    Seq::new(n, |i: int| 0u8)
}

/// One step of polynomial division: the remainder register `r` is shifted by
/// one place, taking in the next dividend coefficient `d`, and the leading
/// term is cancelled with a multiple of the (monic) divisor `g`.
pub open spec fn rem_step(r: Seq<u8>, d: u8, g: Seq<u8>) -> Seq<u8> {
    let factor = gf_add(d, r[0]);
    Seq::new(
        r.len(),
        |j: int| gf_add(if j + 1 < r.len() { r[j + 1] } else { 0u8 }, gf_mul(factor, g[j + 1])),
    )
}

/// The remainder register after feeding `input` into register state `r`.
pub open spec fn rem_fold(r: Seq<u8>, input: Seq<u8>, g: Seq<u8>) -> Seq<u8>
    decreases input.len(),
{
    if input.len() == 0 {
        r
    } else {
        rem_step(rem_fold(r, input.drop_last(), g), input.last(), g)
    }
}

/// The remainder of `dividend * x^k` divided by the monic `divisor` of degree
/// `k`: the register of `k` coefficients after the whole dividend is fed in.
pub open spec fn poly_remainder(dividend: Seq<u8>, divisor: Seq<u8>) -> Seq<u8> {
    rem_fold(zeros((divisor.len() - 1) as nat), dividend, divisor)
}

/// Rotates `v` to the left by `mid` places.
#[verifier::external_body]
fn rotate_left(v: &mut Vec<u8>, mid: usize)
    requires
        mid <= old(v).len(),
    ensures
        final(v)@ == old(v)@.skip(mid as int) + old(v)@.take(mid as int),
{
    v.rotate_left(mid);
}

/// Computes the remainder of the polynomial `dividend * x^k` by the monic
/// polynomial `divisor` of degree `k`, the coefficients of both listed from
/// the highest degree down.
pub fn remainder(dividend: &[u8], divisor: &[u8]) -> (r: Vec<u8>)
    requires
        divisor.len() >= 1,
        dividend.len() > 0 ==> divisor.len() >= 2 && divisor[0] == 1,
    ensures
        r@ == poly_remainder(dividend@, divisor@),
        r.len() == divisor.len() - 1,
{
    let k = divisor.len() - 1;
    let mut remainder: Vec<u8> = vec![0; k];
    assert(remainder@ == zeros(k as nat));
    assert(dividend@.take(0) == Seq::<u8>::empty());
    for i in 0..dividend.len()
        invariant
            k == divisor.len() - 1,
            dividend.len() > 0 ==> k >= 1,
            remainder@ == rem_fold(zeros(k as nat), dividend@.take(i as int), divisor@),
            remainder.len() == k,
    {
        // At every step we cancel out the leading term in the remainder by choosing a factor such
        // that `remainder[0] + dividend[i] + divisor[0] * factor = 0`.
        // Since `divisor[0] = 1` this is just `remainder[0] + dividend[i]`.
        let ghost prev = remainder@;
        let factor = self::add(dividend[i], remainder[0]);

        // We shift the remainder left. This is equivalent to multiplying the polynomial by x.
        rotate_left(&mut remainder, 1);
        let last = remainder.len() - 1;
        remainder[last] = 0;
        let ghost shifted = remainder@;
        assert(forall|j: int| 0 <= j < k ==> shifted[j] == if j + 1 < k { prev[j + 1] } else { 0u8 });

        for j in 0..k
            invariant
                k == divisor.len() - 1,
                remainder.len() == k,
                shifted.len() == k,
                forall|t: int| 0 <= t < j ==> remainder@[t] == gf_add(shifted[t], gf_mul(factor, divisor@[t + 1])),
                forall|t: int| j <= t < k ==> remainder@[t] == shifted[t],
        {
            let v = self::add(remainder[j], self::mul(factor, divisor[j + 1]));
            remainder[j] = v;
        }
        assert(dividend@.take(i + 1).drop_last() == dividend@.take(i as int));
        assert(remainder@ == rem_step(prev, dividend@[i as int], divisor@));
    }
    assert(dividend@.take(dividend.len() as int) == dividend@);
    remainder
}


/// The product of the polynomial `p` with the binomial `x + c`.
pub open spec fn binomial_product(p: Seq<u8>, c: u8) -> Seq<u8> {
    Seq::new(
        p.len(),
        |i: int|
            if i + 1 < p.len() {
                gf_add(p[i + 1], gf_mul(p[i], c))
            } else {
                gf_mul(p[i], c)
            },
    )
}

/// The `len` coefficients of `(x + 2^0) * (x + 2^1) * ... * (x + 2^(k-1))`.
pub open spec fn generator_coefficients(len: nat, k: nat) -> Seq<u8>
    decreases k,
{
    if k == 0 {
        Seq::new(len, |i: int| if i == len - 1 { 1u8 } else { 0u8 })
    } else {
        binomial_product(generator_coefficients(len, (k - 1) as nat), gf_pow(2, (k - 1) as nat))
    }
}

/// The generator polynomial with `n` terms, i.e. of degree `n - 1`:
/// the product of `x + 2^i` for `i` in `0..n - 1`.
pub open spec fn generator_poly(n: nat) -> Seq<u8> {
    generator_coefficients(n, (n - 1) as nat)
}

/// Multiplies the polynomial `coefficients` in place by `x + constant`,
/// dropping the term that would overflow the highest coefficient.
fn multiply_by_binomial(coefficients: &mut [u8], constant: u8)
    requires
        old(coefficients)@.len() >= 1,
    ensures
        final(coefficients)@ == binomial_product(old(coefficients)@, constant),
{
    let ghost p = coefficients@;
    let len = coefficients.len();
    // Set every coefficient except the last to the coefficient to the right of it + its value multiplied by the constant.
    // This is equivalent to multiplying the next coefficient by x, and the current coefficient by the constant.
    let mut i: usize = 0;
    while i < len - 1
        invariant
            len == p.len(),
            len >= 1,
            i <= len - 1,
            coefficients@.len() == len,
            forall|t: int| 0 <= t < i ==> coefficients@[t] == binomial_product(p, constant)[t],
            forall|t: int| i <= t < len ==> coefficients@[t] == p[t],
        decreases len - 1 - i,
    {
        let v = self::add(coefficients[i + 1], self::mul(coefficients[i], constant));
        coefficients[i] = v;
        i += 1;
    }
    // Set the last coefficient to its value multiplied by the constant.
    let v = self::mul(coefficients[i], constant);
    coefficients[i] = v;
    assert(coefficients@ == binomial_product(p, constant));
}

/// Constructs a generator polynomial using 2 as the primitive element.
///
/// The parameter `N` is the number of terms in the polynomial, i.e. its degree + 1
pub fn generator_polynomial<const N: usize>() -> (g: [u8; N])
    requires
        N >= 1,
    ensures
        g@ == generator_poly(N as nat),
{
    let mut coefficients = [0u8; N];
    coefficients[N - 1] = 1;
    assert(coefficients@ == generator_coefficients(N as nat, 0));
    let mut i: usize = 0;
    while i < N - 1
        invariant
            N >= 1,
            i <= N - 1,
            coefficients@ == generator_coefficients(N as nat, i as nat),
        decreases N - 1 - i,
    {
        let c = self::pow(2, i);
        multiply_by_binomial(&mut coefficients, c);
        i += 1;
    }
    coefficients
}


/// The degrees of the generator polynomials that are kept ready for use.
pub open spec fn is_supported_degree(r: usize) -> bool {
    r == 16 || r == 17 || r == 18 || r == 20 || r == 22 || r == 24 || r == 26 || r == 28 || r == 30 || r == 32 || r == 34 || r == 36 || r == 40 || r == 42 || r == 44 || r == 46 || r == 48 || r == 50 || r == 52 || r == 54 || r == 56 || r == 58 || r == 60 || r == 62 || r == 64 || r == 66 || r == 68
}

/// Gets a generator polynomial of a specific degree from the supported set.
pub fn get_generator_polynomial(r: usize) -> (g: Vec<u8>)
    requires
        is_supported_degree(r),
    ensures
        g@ == generator_poly((r + 1) as nat),
{
    match r {
        16 => slice_to_vec(&generator_polynomial::<17>()),
        17 => slice_to_vec(&generator_polynomial::<18>()),
        18 => slice_to_vec(&generator_polynomial::<19>()),
        20 => slice_to_vec(&generator_polynomial::<21>()),
        22 => slice_to_vec(&generator_polynomial::<23>()),
        24 => slice_to_vec(&generator_polynomial::<25>()),
        26 => slice_to_vec(&generator_polynomial::<27>()),
        28 => slice_to_vec(&generator_polynomial::<29>()),
        30 => slice_to_vec(&generator_polynomial::<31>()),
        32 => slice_to_vec(&generator_polynomial::<33>()),
        34 => slice_to_vec(&generator_polynomial::<35>()),
        36 => slice_to_vec(&generator_polynomial::<37>()),
        40 => slice_to_vec(&generator_polynomial::<41>()),
        42 => slice_to_vec(&generator_polynomial::<43>()),
        44 => slice_to_vec(&generator_polynomial::<45>()),
        46 => slice_to_vec(&generator_polynomial::<47>()),
        48 => slice_to_vec(&generator_polynomial::<49>()),
        50 => slice_to_vec(&generator_polynomial::<51>()),
        52 => slice_to_vec(&generator_polynomial::<53>()),
        54 => slice_to_vec(&generator_polynomial::<55>()),
        56 => slice_to_vec(&generator_polynomial::<57>()),
        58 => slice_to_vec(&generator_polynomial::<59>()),
        60 => slice_to_vec(&generator_polynomial::<61>()),
        62 => slice_to_vec(&generator_polynomial::<63>()),
        64 => slice_to_vec(&generator_polynomial::<65>()),
        66 => slice_to_vec(&generator_polynomial::<67>()),
        68 => slice_to_vec(&generator_polynomial::<69>()),
        _ => {
            assert(false);
            Vec::new()
        },
    }
}

} // verus!
