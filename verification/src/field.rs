//! Arithmetic in the prime field: modular products, sums, powers, and the
//! extended-Euclid modular inverse that Lagrange reconstruction rests on.

use vstd::arithmetic::div_mod::*;
use vstd::arithmetic::mul::*;
use vstd::arithmetic::power::*;
use vstd::calc;
use vstd::prelude::*;

verus! {

/// Greatest common divisor, by the Euclidean recursion.
pub open spec fn gcd(a: nat, b: nat) -> nat
    decreases b,
{
    if b == 0 {
        a
    } else {
        gcd(b, a % b)
    }
}

/// `d` divides `n`.
pub open spec fn divides(d: int, n: int) -> bool {
    exists|k: int| n == #[trigger] (d * k)
}

/// The gcd divides both of its arguments.
pub proof fn lemma_gcd_divides_both(a: nat, b: nat)
    ensures
        divides(gcd(a, b) as int, a as int),
        divides(gcd(a, b) as int, b as int),
    decreases b,
{
    let g = gcd(a, b) as int;
    if b == 0 {
        assert(a as int == g * 1);
        assert(b as int == g * 0);
    } else {
        lemma_gcd_divides_both(b, a % b);
        assert(gcd(a, b) == gcd(b, a % b));
        let k1 = choose|k: int| b as int == #[trigger] (g * k);
        let k2 = choose|k: int| (a % b) as int == #[trigger] (g * k);
        lemma_fundamental_div_mod(a as int, b as int);
        let q = (a as int) / (b as int);
        assert(a as int == g * (k1 * q + k2)) by (nonlinear_arith)
            requires
                b as int == g * k1,
                (a % b) as int == g * k2,
                a as int == (b as int) * q + (a % b) as int,
        ;
        assert(divides(g, a as int));
        assert(divides(g, b as int));
    }
}

/// A value with an inverse modulo `p` is coprime to `p`.
pub proof fn lemma_invertible_coprime(d: int, b: int, p: int)
    requires
        2 <= p,
        0 <= d < p,
        0 <= b,
        (d * b) % p == 1,
    ensures
        gcd(p as nat, d as nat) == 1,
{
    let g = gcd(p as nat, d as nat) as int;
    lemma_gcd_divides_both(p as nat, d as nat);
    let k1 = choose|k: int| p == #[trigger] (g * k);
    let k2 = choose|k: int| d == #[trigger] (g * k);
    lemma_fundamental_div_mod(d * b, p);
    let q = (d * b) / p;
    assert(1 == g * (k2 * b - k1 * q)) by (nonlinear_arith)
        requires
            p == g * k1,
            d == g * k2,
            d * b == p * q + (d * b) % p,
            (d * b) % p == 1,
    ;
    if g != 1 {
        if g == 0 {
            assert(p == 0 * k1);
            assert(false);
        } else {
            assert(g >= 2);
            let m = k2 * b - k1 * q;
            assert(false) by (nonlinear_arith)
                requires
                    g * m == 1,
                    g >= 2,
            ;
        }
    }
}

/// The inverse of `a` modulo `p`, where one exists; unconstrained otherwise.
pub open spec fn inv_mod(a: int, p: int) -> int {
    choose|b: int| 0 <= b < p && #[trigger] ((a * b) % p) == 1
}

/// A field element has at most one inverse below the modulus.
pub proof fn lemma_inverse_unique(a: int, b1: int, b2: int, p: int)
    requires
        2 <= p,
        0 <= b1 < p,
        0 <= b2 < p,
        (a * b1) % p == 1,
        (a * b2) % p == 1,
    ensures
        b1 == b2,
{
    assert(b1 * (a * b2) == b2 * (a * b1)) by (nonlinear_arith);
    calc! {
        (==)
        b1; {
            lemma_small_mod(b1 as nat, p as nat);
        }
        b1 % p; {
            lemma_mul_basics_4(b1);
        }
        (b1 * 1) % p; {
            lemma_mul_mod_noop_right(b1, a * b2, p);
        }
        (b1 * (a * b2)) % p; {}
        (b2 * (a * b1)) % p; {
            lemma_mul_mod_noop_right(b2, a * b1, p);
        }
        (b2 * 1) % p; {
            lemma_mul_basics_4(b2);
            lemma_small_mod(b2 as nat, p as nat);
        }
        b2;
    }
}

/// `(a * b) % p`, the product taken in 128 bits so it cannot overflow.
pub fn mul_mod(a: u64, b: u64, p: u64) -> (r: u64)
    requires
        p >= 1,
    ensures
        r == (a as int * b as int) % (p as int),
        r < p,
{
    proof {
        lemma_mul_upper_bound(a as int, u64::MAX as int, b as int, u64::MAX as int);
    }
    (((a as u128) * (b as u128)) % (p as u128)) as u64
}

/// `(a + b) % p`, the sum taken in 128 bits so it cannot overflow.
pub fn add_mod(a: u64, b: u64, p: u64) -> (r: u64)
    requires
        p >= 1,
    ensures
        r == (a as int + b as int) % (p as int),
        r < p,
{
    (((a as u128) + (b as u128)) % (p as u128)) as u64
}

/// `(a - b) % p` as a field element, kept non-negative by adding `p` before
/// reducing.
pub fn sub_mod(a: u64, b: u64, p: u64) -> (r: u64)
    requires
        p >= 1,
    ensures
        r == (a as int - b as int) % (p as int),
        r < p,
{
    let ar: u64 = a % p;
    let br: u64 = b % p;
    proof {
        lemma_sub_mod_noop(a as int, b as int, p as int);
        lemma_mod_add_multiples_vanish(ar as int - br as int, p as int);
    }
    (((ar as u128) + (p as u128) - (br as u128)) % (p as u128)) as u64
}

/// `(0 - a) % p` as a field element.
pub fn neg_mod(a: u64, p: u64) -> (r: u64)
    requires
        p >= 1,
    ensures
        r == (0 - a as int) % (p as int),
        r < p,
{
    sub_mod(0, a, p)
}

/// Modular exponentiation by repeated squaring: `base^exp mod prime`.
pub fn mod_exp(base: u64, exp: u64, prime: u64) -> (r: u64)
    requires
        prime >= 2,
    ensures
        r == pow(base as int, exp as nat) % (prime as int),
{
    let mut result: u64 = 1;
    let mut b: u64 = base % prime;
    let mut e: u64 = exp;
    proof {
        lemma_pow_mod_noop(base as int, exp as nat, prime as int);
        lemma_small_mod(1, prime as nat);
        lemma_mul_basics_2(pow(b as int, e as nat));
        lemma_mul_mod_noop_left(pow(b as int, e as nat), 1, prime as int);
    }
    assert((result as int * pow(b as int, e as nat)) % (prime as int) == pow(
        base as int,
        exp as nat,
    ) % (prime as int)) by {
        assert(result as int * pow(b as int, e as nat) == pow(b as int, e as nat));
        assert(pow(b as int, e as nat) % (prime as int) == pow(base as int, exp as nat) % (
        prime as int));
    }
    while e > 0
        invariant
            prime >= 2,
            result < prime,
            b < prime,
            (result as int * pow(b as int, e as nat)) % (prime as int) == pow(
                base as int,
                exp as nat,
            ) % (prime as int),
        decreases e,
    {
        let ghost r0 = result as int;
        let ghost b0 = b as int;
        let ghost e0 = e as nat;
        if e % 2 == 1 {
            result = mul_mod(result, b, prime);
        }
        b = mul_mod(b, b, prime);
        e = e / 2;
        proof {
            lemma_step_square(r0, b0, e0, prime as int, result as int, b as int);
        }
    }
    proof {
        lemma_pow0(b as int);
        lemma_small_mod(result as nat, prime as nat);
    }
    result
}

/// One square-and-multiply step keeps `result * b^e` fixed modulo `p`.
proof fn lemma_step_square(r0: int, b0: int, e0: nat, p: int, r1: int, b1: int)
    requires
        2 <= p,
        e0 >= 1,
        0 <= r0 < p,
        0 <= b0 < p,
        r1 == if e0 % 2 == 1 {
            (r0 * b0) % p
        } else {
            r0
        },
        b1 == (b0 * b0) % p,
    ensures
        (r1 * pow(b1, (e0 / 2) as nat)) % p == (r0 * pow(b0, e0)) % p,
{
    let h = (e0 / 2) as nat;
    lemma_square_is_pow2(b0);
    lemma_pow_multiplies(b0, 2, h);
    // pow(b0, 2*h) == pow(b0*b0, h)
    calc! {
        (==)
        (r1 * pow(b1, h)) % p; {
            lemma_mul_mod_noop_right(r1, pow(b1, h), p);
            lemma_pow_mod_noop(b0 * b0, h, p);
            lemma_mul_mod_noop_right(r1, pow(b0 * b0, h), p);
        }
        (r1 * pow(b0 * b0, h)) % p; {}
        (r1 * pow(b0, (2 * h) as nat)) % p; {
            if e0 % 2 == 1 {
                lemma_mul_mod_noop_left(r0 * b0, pow(b0, (2 * h) as nat), p);
                lemma_mul_is_associative(r0, b0, pow(b0, (2 * h) as nat));
                lemma_pow1(b0);
                lemma_pow_adds(b0, 1, (2 * h) as nat);
                assert(b0 * pow(b0, (2 * h) as nat) == pow(b0, (1 + 2 * h) as nat));
                assert(e0 == 1 + 2 * h);
            } else {
                assert(e0 == 2 * h);
            }
        }
        (r0 * pow(b0, e0)) % p;
    }
}

/// The modular inverse of `a`, by the extended Euclidean algorithm with the
/// Bezout coefficient tracked as a field element.  `Ok(b)` carries the unique
/// `b < p` with `a * b % p == 1`; the call fails exactly when `gcd(p, a)` is
/// not `1`, that is when `a` is a multiple of a non-prime factor of `p` or
/// zero modulo `p`.
pub fn mod_inverse(a: u64, prime: u64) -> (r: Result<u64, crate::error::ShamirError>)
    requires
        prime >= 2,
        a < prime,
    ensures
        r is Ok <==> gcd(prime as nat, a as nat) == 1,
        r matches Ok(b) ==> b < prime && (a as int * b as int) % (prime as int) == 1 && b as int
            == inv_mod(a as int, prime as int),
        r is Err ==> r == Err::<u64, crate::error::ShamirError>(
            crate::error::ShamirError::NoModularInverse,
        ),
{
    let mut old_r: u64 = prime;
    let mut r: u64 = a;
    let mut old_t: u64 = 0;
    let mut t: u64 = 1;
    proof {
        lemma_small_mod(a as nat, prime as nat);
        lemma_mod_self_0(prime as int);
        assert(a as int * 0 == 0);
        assert(0int % (prime as int) == 0);
    }
    while r != 0
        invariant
            prime >= 2,
            old_r <= prime,
            r < prime,
            old_t < prime,
            t < prime,
            (a as int * old_t as int) % (prime as int) == old_r as int % (prime as int),
            (a as int * t as int) % (prime as int) == r as int % (prime as int),
            gcd(old_r as nat, r as nat) == gcd(prime as nat, a as nat),
        decreases r,
    {
        let q: u64 = old_r / r;
        let new_r: u64 = old_r % r;
        let qt: u64 = mul_mod(q, t, prime);
        let new_t: u64 = sub_mod(old_t, qt, prime);
        proof {
            lemma_euclid_step(
                a as int,
                prime as int,
                old_r as int,
                r as int,
                old_t as int,
                t as int,
                q as int,
                new_r as int,
                new_t as int,
            );
            assert(gcd(r as nat, new_r as nat) == gcd(old_r as nat, r as nat));
        }
        old_r = r;
        r = new_r;
        old_t = t;
        t = new_t;
    }
    if old_r == 1 {
        proof {
            lemma_small_mod(old_r as nat, prime as nat);
            lemma_small_mod(1, prime as nat);
            assert((a as int * old_t as int) % (prime as int) == 1);
            let w = inv_mod(a as int, prime as int);
            assert(0 <= old_t < prime && (a as int * old_t as int) % (prime as int) == 1);
            assert(0 <= w < prime && (a as int * w) % (prime as int) == 1) by {
                assert(exists|b: int|
                    0 <= b < prime && #[trigger] ((a as int * b) % (prime as int)) == 1) by {
                    assert(0 <= old_t < prime && (a as int * old_t as int) % (prime as int) == 1);
                }
            }
            lemma_inverse_unique(a as int, old_t as int, w, prime as int);
        }
        Ok(old_t)
    } else {
        Err(crate::error::ShamirError::NoModularInverse)
    }
}

/// One step of the Euclidean recursion keeps the Bezout relation
/// `a * t == r (mod p)` for the rotated pair.
proof fn lemma_euclid_step(
    a: int,
    p: int,
    old_r: int,
    r: int,
    old_t: int,
    t: int,
    q: int,
    new_r: int,
    new_t: int,
)
    requires
        2 <= p,
        0 < r < p,
        0 <= old_r,
        0 <= old_t < p,
        0 <= t < p,
        (a * old_t) % p == old_r % p,
        (a * t) % p == r % p,
        q == old_r / r,
        new_r == old_r % r,
        new_t == (old_t - (q * t) % p) % p,
    ensures
        (a * new_t) % p == new_r % p,
{
    lemma_fundamental_div_mod(old_r, r);
    assert(new_r == old_r - q * r);
    calc! {
        (==)
        (a * new_t) % p; {
            lemma_mul_mod_noop_right(a, old_t - (q * t) % p, p);
        }
        (a * (old_t - (q * t) % p)) % p; {
            lemma_mul_mod_noop_right(a, old_t - q * t, p);
            lemma_sub_mod_noop_right(old_t, q * t, p);
            lemma_mod_twice(old_t - (q * t) % p, p);
            assert((old_t - (q * t) % p) % p == (old_t - q * t) % p);
            lemma_mod_twice(old_t - q * t, p);
        }
        (a * (old_t - q * t)) % p; {
            lemma_mul_is_distributive_sub(a, old_t, q * t);
            assert(a * (old_t - q * t) == a * old_t - a * (q * t));
            assert(a * (q * t) == q * (a * t)) by (nonlinear_arith);
        }
        (a * old_t - q * (a * t)) % p; {
            lemma_sub_mod_noop(a * old_t, q * (a * t), p);
            lemma_mul_mod_noop_right(q, a * t, p);
            lemma_mul_mod_noop_right(q, r, p);
            lemma_sub_mod_noop(old_r, q * r, p);
            lemma_small_mod((old_r - q * r) as nat, p as nat);
            assert((a * old_t) % p == old_r % p);
            assert((q * (a * t)) % p == (q * r) % p);
        }
        (old_r - q * r) % p; {}
        new_r % p;
    }
}

} // verus!
