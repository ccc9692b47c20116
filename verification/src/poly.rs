//! Polynomials over the prime field: the mathematical value of a coefficient
//! sequence at a point, and its executable evaluation by Horner's rule with a
//! reduction after every step.

use vstd::arithmetic::div_mod::*;
use vstd::arithmetic::mul::*;
use vstd::arithmetic::power::*;
use vstd::prelude::*;

verus! {

/// The value over the integers of the polynomial with coefficient sequence
/// `c` (constant term first) at the point `x`.
pub open spec fn poly_sum(c: Seq<int>, x: int) -> int
    decreases c.len(),
{
    if c.len() == 0 {
        0
    } else {
        c[0] + x * poly_sum(c.subrange(1, c.len() as int), x)
    }
}

/// The polynomial's value at `x` as a field element.
pub open spec fn eval_at(c: Seq<int>, x: int, p: int) -> int {
    poly_sum(c, x) % p
}

/// A coefficient vector read as a sequence of integers.
pub open spec fn coeffs_view(c: Seq<u64>) -> Seq<int> {
    c.map_values(|v: u64| v as int)
}

/// The sum of the first `n` terms `c_i * x^i`, over the integers.
pub open spec fn poly_sum_prefix(c: Seq<int>, x: int, n: int) -> int
    decreases n,
{
    if n <= 0 {
        0
    } else {
        poly_sum_prefix(c, x, n - 1) + c[n - 1] * pow(x, (n - 1) as nat)
    }
}

/// The sum of the first `n` terms with every power, product and partial sum
/// reduced modulo `p`, as the term-by-term verifier computes it.
pub open spec fn powsum_prefix(c: Seq<int>, x: int, n: int, p: int) -> int
    decreases n,
{
    if n <= 0 {
        0
    } else {
        (powsum_prefix(c, x, n - 1, p) + (c[n - 1] * (pow(x, (n - 1) as nat) % p)) % p) % p
    }
}

/// Reducing each term and each partial sum changes nothing modulo `p`.
pub proof fn lemma_powsum_prefix_mod(c: Seq<int>, x: int, n: int, p: int)
    requires
        1 <= p,
        0 <= n <= c.len(),
    ensures
        powsum_prefix(c, x, n, p) == poly_sum_prefix(c, x, n) % p,
    decreases n,
{
    if n <= 0 {
        assert(0int % p == 0);
    } else {
        lemma_powsum_prefix_mod(c, x, n - 1, p);
        let s = poly_sum_prefix(c, x, n - 1);
        let t = c[n - 1] * pow(x, (n - 1) as nat);
        lemma_mul_mod_noop_right(c[n - 1], pow(x, (n - 1) as nat), p);
        assert((c[n - 1] * (pow(x, (n - 1) as nat) % p)) % p == t % p);
        lemma_add_mod_noop(s, t, p);
        assert((s % p + t % p) % p == (s + t) % p);
        assert(powsum_prefix(c, x, n, p) == (powsum_prefix(c, x, n - 1, p) + (c[n - 1] * (pow(
            x,
            (n - 1) as nat,
        ) % p)) % p) % p);
        assert(poly_sum_prefix(c, x, n) == s + t);
    }
}

/// Splitting off the constant term: the first `n` power-sum terms of `c` are
/// `c_0` plus `x` times the first `n - 1` terms of the shifted coefficients.
proof fn lemma_prefix_shift(c: Seq<int>, x: int, n: int)
    requires
        1 <= n <= c.len(),
    ensures
        poly_sum_prefix(c, x, n) == c[0] + x * poly_sum_prefix(
            c.subrange(1, c.len() as int),
            x,
            n - 1,
        ),
    decreases n,
{
    let cs = c.subrange(1, c.len() as int);
    if n == 1 {
        lemma_pow0(x);
        assert(poly_sum_prefix(c, x, 1) == poly_sum_prefix(c, x, 0) + c[0] * pow(x, 0));
    } else {
        lemma_prefix_shift(c, x, n - 1);
        assert(cs[n - 2] == c[n - 1]);
        assert(pow(x, (n - 1) as nat) == x * pow(x, (n - 2) as nat)) by {
            lemma_pow1(x);
            lemma_pow_adds(x, 1, (n - 2) as nat);
            assert((n - 1) as nat == 1 + (n - 2) as nat);
        }
        assert(c[n - 1] * (x * pow(x, (n - 2) as nat)) == x * (cs[n - 2] * pow(
            x,
            (n - 2) as nat,
        ))) by (nonlinear_arith)
            requires
                cs[n - 2] == c[n - 1],
        ;
        lemma_mul_is_distributive_add(x, poly_sum_prefix(cs, x, n - 2), cs[n - 2] * pow(
            x,
            (n - 2) as nat,
        ));
    }
}

/// The term-by-term power sum and the nested (Horner) form agree.
pub proof fn lemma_poly_sum_prefix_full(c: Seq<int>, x: int)
    ensures
        poly_sum_prefix(c, x, c.len() as int) == poly_sum(c, x),
    decreases c.len(),
{
    if c.len() == 0 {
    } else {
        let cs = c.subrange(1, c.len() as int);
        lemma_prefix_shift(c, x, c.len() as int);
        lemma_poly_sum_prefix_full(cs, x);
    }
}

/// Evaluate the polynomial at `x` by Horner's rule, reducing modulo `prime`
/// after every multiply-and-add so that no intermediate leaves the field.
pub fn evaluate_polynomial(coeffs: &Vec<u64>, x: u64, prime: u64) -> (r: u64)
    requires
        prime >= 2,
    ensures
        r == eval_at(coeffs_view(coeffs@), x as int, prime as int),
        r < prime,
{
    let ghost cv = coeffs_view(coeffs@);
    let mut result: u64 = 0;
    let mut k: usize = coeffs.len();
    proof {
        assert(cv.subrange(k as int, cv.len() as int) =~= Seq::<int>::empty());
        assert(0int % (prime as int) == 0);
    }
    while k > 0
        invariant
            prime >= 2,
            k <= coeffs.len(),
            cv == coeffs_view(coeffs@),
            cv.len() == coeffs@.len(),
            result == eval_at(cv.subrange(k as int, cv.len() as int), x as int, prime as int),
            result < prime,
        decreases k,
    {
        k = k - 1;
        let c: u64 = coeffs[k];
        let ghost tail = cv.subrange(k as int + 1, cv.len() as int);
        let ghost whole = cv.subrange(k as int, cv.len() as int);
        proof {
            assert(whole.subrange(1, whole.len() as int) =~= tail);
            assert(whole[0] == c as int);
            let s = poly_sum(tail, x as int);
            lemma_mul_mod_noop_right(x as int, s, prime as int);
            lemma_add_mod_noop_right(c as int, (x as int) * (s % (prime as int)), prime as int);
            lemma_add_mod_noop_right(c as int, (x as int) * s, prime as int);
            assert((c as int + (x as int) * (s % (prime as int))) % (prime as int) == (c as int
                + (x as int) * s) % (prime as int));
            lemma_mul_upper_bound(result as int, u64::MAX as int, x as int, u64::MAX as int);
        }
        result = (((result as u128) * (x as u128) + (c as u128)) % (prime as u128)) as u64;
    }
    proof {
        assert(cv.subrange(0, cv.len() as int) =~= cv);
    }
    result
}

} // verus!
