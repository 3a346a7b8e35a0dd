//! Laws of polynomial division and of generator polynomials.
use vstd::prelude::*;
use crate::field_laws::{
    lemma_add_commutative_associative, lemma_add_self, lemma_add_zero, lemma_mul_associative,
    lemma_mul_commutative, lemma_mul_distributive, lemma_mul_one, lemma_mul_zero,
};
use crate::gf::{
    binomial_product, generator_coefficients, generator_poly, gf_add, gf_mul, poly_remainder,
    gf_pow, rem_fold, rem_step, zeros,
};

verus! {

/// Feeding input into the remainder register keeps its length.
pub proof fn lemma_rem_fold_len(r: Seq<u8>, input: Seq<u8>, g: Seq<u8>)
    ensures
        rem_fold(r, input, g).len() == r.len(),
    decreases input.len(),
{
    if input.len() > 0 {
        lemma_rem_fold_len(r, input.drop_last(), g);
    }
}

/// Feeding `a` and then `b` is feeding `a + b`.
pub proof fn lemma_rem_fold_append(r: Seq<u8>, a: Seq<u8>, b: Seq<u8>, g: Seq<u8>)
    ensures
        rem_fold(r, a + b, g) == rem_fold(rem_fold(r, a, g), b, g),
    decreases b.len(),
{
    if b.len() == 0 {
        assert(a + b == a);
    } else {
        lemma_rem_fold_append(r, a, b.drop_last(), g);
        assert((a + b).drop_last() == a + b.drop_last());
        assert((a + b).last() == b.last());
    }
}

/// A register holding zeros stays zero when zeros are fed in.
pub proof fn lemma_rem_fold_zeros(k: nat, n: nat, g: Seq<u8>)
    requires
        g.len() == k + 1,
    ensures
        rem_fold(zeros(k), zeros(n), g) == zeros(k),
    decreases n,
{
    if n > 0 {
        lemma_rem_fold_zeros(k, (n - 1) as nat, g);
        assert(zeros(n).drop_last() == zeros((n - 1) as nat));
        lemma_add_zero(0u8);
        let s = rem_step(zeros(k), 0u8, g);
        assert forall|j: int| 0 <= j < k implies s[j] == 0u8 by {
            lemma_mul_zero(g[j + 1]);
        }
        assert(s == zeros(k));
    }
}

/// The remainder of the zero polynomial is zero.
pub proof fn lemma_remainder_of_zeros(n: nat, g: Seq<u8>)
    requires
        g.len() >= 1,
    ensures
        poly_remainder(zeros(n), g) == zeros((g.len() - 1) as nat),
{
    lemma_rem_fold_zeros((g.len() - 1) as nat, n, g);
}

/// Feeding the first `t` coefficients of the register's own contents
/// shifts them out and leaves zeros behind.
proof fn lemma_rem_fold_self(r: Seq<u8>, t: nat, g: Seq<u8>)
    requires
        t <= r.len(),
        g.len() == r.len() + 1,
    ensures
        rem_fold(r, r.take(t as int), g) == r.skip(t as int) + zeros(t),
    decreases t,
{
    if t == 0 {
        assert(r.take(0) == Seq::<u8>::empty());
        assert(r.skip(0) + zeros(0) == r);
    } else {
        let t1 = (t - 1) as nat;
        lemma_rem_fold_self(r, t1, g);
        assert(r.take(t as int).drop_last() == r.take(t1 as int));
        let s = r.skip(t1 as int) + zeros(t1);
        assert(s[0] == r[t1 as int]);
        lemma_add_self(r[t1 as int]);
        let next = rem_step(s, r[t1 as int], g);
        assert forall|j: int| 0 <= j < r.len() implies next[j] == (r.skip(t as int) + zeros(t))[j] by {
            lemma_mul_zero(g[j + 1]);
            lemma_add_zero(if j + 1 < s.len() { s[j + 1] } else { 0u8 });
        }
        assert(next == r.skip(t as int) + zeros(t));
    }
}

/// A message followed by its remainder (a codeword) leaves remainder zero.
pub proof fn lemma_codeword_remainder(message: Seq<u8>, g: Seq<u8>)
    requires
        g.len() >= 1,
    ensures
        poly_remainder(message + poly_remainder(message, g), g) == zeros((g.len() - 1) as nat),
{
    let k = (g.len() - 1) as nat;
    let r = poly_remainder(message, g);
    lemma_rem_fold_len(zeros(k), message, g);
    lemma_rem_fold_append(zeros(k), message, r, g);
    lemma_rem_fold_self(r, k, g);
    assert(r.take(k as int) == r);
    assert(r.skip(k as int) + zeros(k) == zeros(k));
}

/// After `k` factors the polynomial has degree `k`, with leading coefficient 1.
proof fn lemma_generator_coefficients_shape(len: nat, k: nat)
    requires
        k < len,
    ensures
        generator_coefficients(len, k).len() == len,
        generator_coefficients(len, k)[len - 1 - k] == 1,
        forall|i: int| 0 <= i < len - 1 - k ==> generator_coefficients(len, k)[i] == 0,
    decreases k,
{
    if k > 0 {
        let k1 = (k - 1) as nat;
        lemma_generator_coefficients_shape(len, k1);
        let p = generator_coefficients(len, k1);
        let c = crate::gf::gf_pow(2, k1);
        lemma_mul_zero(c);
        lemma_add_zero(1u8);
        lemma_add_zero(0u8);
        let q = binomial_product(p, c);
        assert(q[len - 1 - k] == gf_add(p[len - k], gf_mul(p[len - 1 - k], c)));
    }
}

/// A generator polynomial with `n` terms is monic of degree `n - 1`.
pub proof fn lemma_generator_monic(n: nat)
    requires
        n >= 1,
    ensures
        generator_poly(n).len() == n,
        generator_poly(n)[0] == 1,
{
    lemma_generator_coefficients_shape(n, (n - 1) as nat);
}

/// The value of the polynomial `p` (highest degree first) at `z`, by
/// Horner's rule.
pub open spec fn poly_eval(p: Seq<u8>, z: u8) -> u8
    decreases p.len(),
{
    if p.len() == 0 {
        0
    } else {
        gf_add(gf_mul(poly_eval(p.drop_last(), z), z), p.last())
    }
}

proof fn lemma_horner_algebra(z: u8, c: u8, h: u8, t: u8, p1: u8)
    ensures
        gf_add(
            gf_mul(gf_add(gf_mul(gf_add(z, c), h), t), z),
            gf_add(p1, gf_mul(t, c)),
        ) == gf_add(gf_mul(gf_add(z, c), gf_add(gf_mul(h, z), t)), p1),
        gf_add(gf_mul(gf_add(gf_mul(gf_add(z, c), h), t), z), gf_mul(t, c)) == gf_mul(
            gf_add(z, c),
            gf_add(gf_mul(h, z), t),
        ),
{
    let a = gf_add(z, c);
    let ah = gf_mul(a, h);
    lemma_mul_commutative(gf_add(ah, t), z);
    lemma_mul_distributive(z, ah, t);
    lemma_mul_commutative(z, ah);
    lemma_mul_commutative(z, t);
    lemma_mul_associative(a, h, z);
    lemma_mul_distributive(a, gf_mul(h, z), t);
    lemma_mul_commutative(a, t);
    lemma_mul_distributive(t, z, c);
    let x = gf_mul(a, gf_mul(h, z));
    let y = gf_mul(t, z);
    let w = gf_mul(t, c);
    assert((x ^ y) ^ (p1 ^ w) == (x ^ (y ^ w)) ^ p1) by (bit_vector);
    assert((x ^ y) ^ w == x ^ (y ^ w)) by (bit_vector);
}

proof fn lemma_eval_binomial_prefix(p: Seq<u8>, c: u8, z: u8, n: nat)
    requires
        p.len() >= 1,
        p[0] == 0,
        n < p.len(),
    ensures
        poly_eval(binomial_product(p, c).take(n as int), z) == gf_add(
            gf_mul(gf_add(z, c), poly_eval(p.take(n as int), z)),
            p[n as int],
        ),
    decreases n,
{
    let q = binomial_product(p, c);
    if n == 0 {
        assert(q.take(0).len() == 0);
        assert(p.take(0).len() == 0);
        lemma_mul_zero(gf_add(z, c));
        lemma_add_zero(0u8);
    } else {
        let m = (n - 1) as nat;
        lemma_eval_binomial_prefix(p, c, z, m);
        assert(q.take(n as int).drop_last() == q.take(m as int));
        assert(p.take(n as int).drop_last() == p.take(m as int));
        assert(q.take(n as int).last() == q[m as int]);
        assert(p.take(n as int).last() == p[m as int]);
        assert(q[m as int] == gf_add(p[n as int], gf_mul(p[m as int], c)));
        lemma_horner_algebra(z, c, poly_eval(p.take(m as int), z), p[m as int], p[n as int]);
    }
}

/// Multiplying by `x + c` multiplies the value at every point `z` by
/// `z + c`, as long as no term is dropped off the top.
pub proof fn lemma_eval_binomial(p: Seq<u8>, c: u8, z: u8)
    requires
        p.len() >= 1,
        p[0] == 0,
    ensures
        poly_eval(binomial_product(p, c), z) == gf_mul(gf_add(z, c), poly_eval(p, z)),
{
    let q = binomial_product(p, c);
    let m = (p.len() - 1) as nat;
    lemma_eval_binomial_prefix(p, c, z, m);
    assert(q.drop_last() == q.take(m as int));
    assert(p.drop_last() == p.take(m as int));
    assert(q[m as int] == gf_mul(p[m as int], c));
    lemma_horner_algebra(z, c, poly_eval(p.take(m as int), z), p[m as int], 0);
}

proof fn lemma_generator_coefficients_roots(len: nat, k: nat, j: nat)
    requires
        k < len,
        j < k,
    ensures
        poly_eval(generator_coefficients(len, k), gf_pow(2, j)) == 0,
    decreases k,
{
    let k1 = (k - 1) as nat;
    let p = generator_coefficients(len, k1);
    let c = gf_pow(2, k1);
    let z = gf_pow(2, j);
    lemma_generator_coefficients_shape(len, k1);
    lemma_eval_binomial(p, c, z);
    if j == k1 {
        lemma_add_self(z);
        lemma_mul_zero(poly_eval(p, z));
    } else {
        lemma_generator_coefficients_roots(len, k1, j);
        lemma_mul_zero(gf_add(z, c));
    }
}

/// The generator polynomial with `n` terms has the roots `2^0, ..., 2^(n-2)`.
pub proof fn lemma_generator_roots(n: nat, j: nat)
    requires
        j + 1 < n,
    ensures
        poly_eval(generator_poly(n), gf_pow(2, j)) == 0,
{
    lemma_generator_coefficients_roots(n, (n - 1) as nat, j);
}

/// The coefficient-wise sum of two polynomials of the same length.
pub open spec fn poly_add(a: Seq<u8>, b: Seq<u8>) -> Seq<u8> {
    Seq::new(a.len(), |i: int| gf_add(a[i], b[i]))
}

/// `(a + b) + (c + d) == (a + c) + (b + d)` in the field.
proof fn lemma_add_swap(a: u8, b: u8, c: u8, d: u8)
    ensures
        gf_add(gf_add(a, b), gf_add(c, d)) == gf_add(gf_add(a, c), gf_add(b, d)),
{
    assert((a ^ b) ^ (c ^ d) == (a ^ c) ^ (b ^ d)) by (bit_vector);
}

proof fn lemma_rem_step_additive(r1: Seq<u8>, r2: Seq<u8>, d1: u8, d2: u8, g: Seq<u8>)
    requires
        r1.len() == r2.len(),
    ensures
        rem_step(poly_add(r1, r2), gf_add(d1, d2), g) == poly_add(rem_step(r1, d1, g), rem_step(r2, d2, g)),
{
    let r = poly_add(r1, r2);
    let n = r1.len() as int;
    if n > 0 {
        let f1 = gf_add(d1, r1[0]);
        let f2 = gf_add(d2, r2[0]);
        lemma_add_swap(d1, d2, r1[0], r2[0]);
        assert(gf_add(gf_add(d1, d2), r[0]) == gf_add(f1, f2));
        assert forall|j: int| 0 <= j < n implies #[trigger] rem_step(r, gf_add(d1, d2), g)[j] == gf_add(
            rem_step(r1, d1, g)[j],
            rem_step(r2, d2, g)[j],
        ) by {
            let c = g[j + 1];
            lemma_mul_commutative(gf_add(f1, f2), c);
            lemma_mul_distributive(c, f1, f2);
            lemma_mul_commutative(f1, c);
            lemma_mul_commutative(f2, c);
            let s1 = if j + 1 < n { r1[j + 1] } else { 0u8 };
            let s2 = if j + 1 < n { r2[j + 1] } else { 0u8 };
            assert((if j + 1 < n { r[j + 1] } else { 0u8 }) == gf_add(s1, s2)) by {
                lemma_add_zero(0u8);
            }
            lemma_add_swap(s1, s2, gf_mul(f1, c), gf_mul(f2, c));
        }
    }
    assert(rem_step(r, gf_add(d1, d2), g) =~= poly_add(rem_step(r1, d1, g), rem_step(r2, d2, g)));
}

/// Feeding the sum of two inputs into the sum of two registers gives the
/// sum of the two results.
proof fn lemma_rem_fold_additive(r1: Seq<u8>, r2: Seq<u8>, a: Seq<u8>, b: Seq<u8>, g: Seq<u8>)
    requires
        r1.len() == r2.len(),
        a.len() == b.len(),
    ensures
        rem_fold(poly_add(r1, r2), poly_add(a, b), g) == poly_add(rem_fold(r1, a, g), rem_fold(r2, b, g)),
    decreases a.len(),
{
    if a.len() > 0 {
        lemma_rem_fold_additive(r1, r2, a.drop_last(), b.drop_last(), g);
        assert(poly_add(a, b).drop_last() == poly_add(a.drop_last(), b.drop_last()));
        lemma_rem_fold_len(r1, a.drop_last(), g);
        lemma_rem_fold_len(r2, b.drop_last(), g);
        lemma_rem_step_additive(rem_fold(r1, a.drop_last(), g), rem_fold(r2, b.drop_last(), g), a.last(), b.last(), g);
    }
}

/// The remainder is additive: the remainder of the sum of two dividends of
/// the same length is the sum of their remainders.
pub proof fn lemma_remainder_additive(a: Seq<u8>, b: Seq<u8>, g: Seq<u8>)
    requires
        a.len() == b.len(),
    ensures
        poly_remainder(poly_add(a, b), g) == poly_add(poly_remainder(a, g), poly_remainder(b, g)),
{
    let z = zeros((g.len() - 1) as nat);
    assert(poly_add(z, z) == z) by {
        lemma_add_zero(0u8);
    }
    lemma_rem_fold_additive(z, z, a, b, g);
}

/// The coefficient of `x^e` in `p` (highest degree first); zero outside
/// the polynomial.
pub open spec fn coef(p: Seq<u8>, e: int) -> u8 {
    if 0 <= e < p.len() {
        p[p.len() - 1 - e]
    } else {
        0
    }
}

/// The sum of `coef(q, i) * coef(g, e - i)` for `i` below `n`: for `n` the
/// length of `q`, the coefficient of `x^e` in the product `q * g`.
pub open spec fn product_coef(q: Seq<u8>, g: Seq<u8>, e: int, n: nat) -> u8
    decreases n,
{
    if n == 0 {
        0
    } else {
        gf_add(product_coef(q, g, e, (n - 1) as nat), gf_mul(coef(q, n - 1), coef(g, e - (n - 1))))
    }
}

/// The quotient of the division: the factors by which the divisor is
/// cancelled at each step, highest degree first.
pub open spec fn quotient_fold(r: Seq<u8>, input: Seq<u8>, g: Seq<u8>) -> Seq<u8>
    decreases input.len(),
{
    if input.len() == 0 {
        Seq::empty()
    } else {
        quotient_fold(r, input.drop_last(), g).push(gf_add(input.last(), rem_fold(r, input.drop_last(), g)[0]))
    }
}

/// Two field elements that add up to zero are equal.
proof fn lemma_add_equal(a: u8, b: u8)
    ensures
        gf_add(a, b) == 0 <==> a == b,
{
    assert((a ^ b) == 0 <==> a == b) by (bit_vector);
}

/// Multiplying `q.push(f)` by `g` is multiplying `q` by `g` and by `x`,
/// then adding `f * g`.
proof fn lemma_product_coef_push(q: Seq<u8>, f: u8, g: Seq<u8>, e: int, n: nat)
    requires
        1 <= n <= q.len() + 1,
    ensures
        product_coef(q.push(f), g, e, n) == gf_add(gf_mul(f, coef(g, e)), product_coef(q, g, e - 1, (n - 1) as nat)),
    decreases n,
{
    let qf = q.push(f);
    assert(coef(qf, 0) == f);
    let fc = gf_mul(f, coef(g, e));
    if n == 1 {
        lemma_add_zero(fc);
        assert(product_coef(qf, g, e, 0) == 0);
        assert(product_coef(qf, g, e, 1) == gf_add(0u8, fc));
        assert(product_coef(q, g, e - 1, 0) == 0);
    } else {
        lemma_product_coef_push(q, f, g, e, (n - 1) as nat);
        assert(coef(qf, n - 1) == coef(q, n - 2));
        let t = gf_mul(coef(q, n - 2), coef(g, (e - 1) - (n - 2)));
        assert(product_coef(qf, g, e, n) == gf_add(product_coef(qf, g, e, (n - 1) as nat), t));
        assert(product_coef(q, g, e - 1, (n - 1) as nat) == gf_add(product_coef(q, g, e - 1, (n - 2) as nat), t));
        lemma_add_commutative_associative(fc, product_coef(q, g, e - 1, (n - 2) as nat), t);
    }
}

/// Long division: `dividend * x^k` is the quotient times the divisor plus
/// the remainder, coefficient by coefficient, for a monic divisor of degree
/// `k >= 1`.
pub proof fn lemma_division(dividend: Seq<u8>, g: Seq<u8>, e: int)
    requires
        g.len() >= 2,
        g[0] == 1,
    ensures
        ({
            let k = g.len() - 1;
            let q = quotient_fold(zeros(k as nat), dividend, g);
            let r = poly_remainder(dividend, g);
            &&& q.len() == dividend.len()
            &&& r.len() == k
            &&& coef(dividend, e - k) == gf_add(product_coef(q, g, e, q.len()), coef(r, e))
        }),
    decreases dividend.len(),
{
    let k = g.len() - 1;
    let z = zeros(k as nat);
    let q = quotient_fold(z, dividend, g);
    let r = poly_remainder(dividend, g);
    lemma_rem_fold_len(z, dividend, g);
    if dividend.len() == 0 {
        lemma_add_zero(0u8);
    } else {
        let d0 = dividend.drop_last();
        let d = dividend.last();
        let q0 = quotient_fold(z, d0, g);
        let r0 = rem_fold(z, d0, g);
        lemma_rem_fold_len(z, d0, g);
        let f = gf_add(d, r0[0]);
        assert(q == q0.push(f));
        assert(r == rem_step(r0, d, g));
        lemma_division(d0, g, e - 1);
        lemma_product_coef_push(q0, f, g, e, q.len() as nat);
        let p0 = product_coef(q0, g, e - 1, q0.len() as nat);
        let fg = gf_mul(f, coef(g, e));
        let c_r0 = coef(r0, e - 1);
        assert(product_coef(q, g, e, q.len()) == gf_add(fg, p0));
        if e < 0 {
            assert(coef(r, e) == 0);
            assert(coef(g, e) == 0);
            lemma_mul_zero(f);
            assert(c_r0 == 0);
            assert(coef(dividend, e - k) == 0);
            assert(coef(d0, e - 1 - k) == 0);
            lemma_add_zero(p0);
            lemma_add_equal(p0, 0u8);
            lemma_add_zero(0u8);
        } else if e < k {
            // the register step: coefficient e of the new register
            assert(coef(r, e) == r[k - 1 - e]);
            assert(r[k - 1 - e] == gf_add(
                if k - e < k { r0[k - e] } else { 0u8 },
                gf_mul(f, g[k - e]),
            ));
            assert(coef(g, e) == g[k - e]);
            assert((if k - e < k { r0[k - e] } else { 0u8 }) == c_r0);
            assert(coef(dividend, e - k) == 0);
            assert(coef(d0, e - 1 - k) == 0);
            lemma_add_equal(p0, c_r0);
            lemma_add_commutative_associative(fg, p0, gf_add(c_r0, fg));
            lemma_add_commutative_associative(p0, c_r0, fg);
            lemma_add_commutative_associative(c_r0, fg, 0u8);
            lemma_add_self(fg);
            lemma_add_self(p0);
            lemma_add_commutative_associative(fg, p0, p0);
            lemma_add_commutative_associative(p0, fg, p0);
            lemma_add_commutative_associative(p0, p0, fg);
            lemma_add_zero(fg);
            lemma_add_self(fg);
        } else if e == k {
            assert(coef(r, e) == 0);
            assert(coef(g, e) == 1);
            lemma_mul_one(f);
            assert(coef(d0, -1) == 0);
            assert(c_r0 == r0[0]);
            lemma_add_equal(p0, c_r0);
            assert(coef(dividend, e - k) == d);
            lemma_add_commutative_associative(d, r0[0], r0[0]);
            lemma_add_self(r0[0]);
            lemma_add_zero(d);
            lemma_add_zero(gf_add(fg, p0));
        } else {
            assert(coef(r, e) == 0);
            assert(coef(g, e) == 0);
            lemma_mul_zero(f);
            assert(c_r0 == 0);
            assert(coef(dividend, e - k) == coef(d0, e - 1 - k));
            lemma_add_zero(p0);
            lemma_add_zero(gf_add(fg, p0));
        }
    }
}

} // verus!
