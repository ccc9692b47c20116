//! The threshold scheme itself: a configuration, the split of a secret into
//! shares, and Lagrange reconstruction at zero.

use crate::error::ShamirError;
use crate::field::add_mod;
use crate::field::gcd;
use crate::field::inv_mod;
use crate::field::lemma_inverse_unique;
use crate::field::lemma_invertible_coprime;
use crate::field::mod_inverse;
use crate::field::mul_mod;
use crate::field::neg_mod;
use crate::field::sub_mod;
use crate::poly::coeffs_view;
use crate::poly::eval_at;
use crate::poly::evaluate_polynomial;
use crate::poly::poly_sum;
use crate::rng::random_field_element;
use vstd::arithmetic::div_mod::lemma_add_mod_noop;
use vstd::arithmetic::div_mod::lemma_mul_mod_noop_general;
use vstd::arithmetic::div_mod::lemma_mul_mod_noop_left;
use vstd::arithmetic::div_mod::lemma_mul_mod_noop_right;
use vstd::arithmetic::div_mod::lemma_small_mod;
use vstd::arithmetic::div_mod::lemma_sub_mod_noop;
use vstd::arithmetic::div_mod::lemma_sub_mod_noop_right;
use vstd::prelude::*;

verus! {

/// A scheme configuration: reconstruction needs `threshold` of the `shares`
/// issued shares, and all arithmetic is modulo `prime`.
pub struct Shamir {
    threshold: usize,
    shares: usize,
    prime: u64,
}

/// A coefficient sequence as a split draws it: `threshold` field elements
/// whose constant term is the secret.
pub open spec fn is_secret_polynomial(c: Seq<int>, secret: int, threshold: int, p: int) -> bool {
    &&& c.len() == threshold
    &&& c[0] == secret
    &&& forall|k: int| 0 <= k < c.len() ==> 0 <= #[trigger] c[k] < p
}

/// Every share pairs the participant index `i + 1` with the polynomial's
/// value there.
pub open spec fn shares_of_polynomial(shares: Seq<(u64, u64)>, c: Seq<int>, p: int) -> bool {
    forall|i: int|
        0 <= i < shares.len() ==> #[trigger] shares[i] == (
            ((i + 1) as u64),
            (eval_at(c, i + 1, p) as u64),
        )
}

/// The x-coordinates of a share sequence.
pub open spec fn xs_of(shares: Seq<(u64, u64)>) -> Seq<int> {
    shares.map_values(|s: (u64, u64)| s.0 as int)
}

/// The first `n` factors of the Lagrange numerator for index `i`: the
/// product of `(0 - x_j) mod p` over `j < n`, `j != i`.
pub open spec fn numerator_prefix(xs: Seq<int>, i: int, n: int, p: int) -> int
    decreases n,
{
    if n <= 0 {
        1
    } else if n - 1 == i {
        numerator_prefix(xs, i, n - 1, p)
    } else {
        (numerator_prefix(xs, i, n - 1, p) * ((0 - xs[n - 1]) % p)) % p
    }
}

/// The Lagrange numerator for index `i` over the whole share set.
pub open spec fn numerator(xs: Seq<int>, i: int, p: int) -> int {
    numerator_prefix(xs, i, xs.len() as int, p)
}

/// The first `n` factors of the Lagrange denominator for index `i`: the
/// product of `(x_i - x_j) mod p` over `j < n`, `j != i`.
pub open spec fn denominator_prefix(xs: Seq<int>, i: int, n: int, p: int) -> int
    decreases n,
{
    if n <= 0 {
        1
    } else if n - 1 == i {
        denominator_prefix(xs, i, n - 1, p)
    } else {
        (denominator_prefix(xs, i, n - 1, p) * ((xs[i] - xs[n - 1]) % p)) % p
    }
}

/// The Lagrange denominator for index `i` over the whole share set.
pub open spec fn denominator(xs: Seq<int>, i: int, p: int) -> int {
    denominator_prefix(xs, i, xs.len() as int, p)
}

/// The Lagrange basis coefficient at zero for index `i`.
pub open spec fn lagrange_coeff(xs: Seq<int>, i: int, p: int) -> int {
    (numerator(xs, i, p) * inv_mod(denominator(xs, i, p), p)) % p
}

/// The reconstruction sum over the first `n` shares, reduced at every step.
pub open spec fn lagrange_prefix(shares: Seq<(u64, u64)>, n: int, p: int) -> int
    decreases n,
{
    if n <= 0 {
        0
    } else {
        (lagrange_prefix(shares, n - 1, p) + (shares[n - 1].1 as int * lagrange_coeff(
            xs_of(shares),
            n - 1,
            p,
        )) % p) % p
    }
}

/// The full Lagrange interpolation of the share set, evaluated at zero.
pub open spec fn lagrange_at_zero(shares: Seq<(u64, u64)>, p: int) -> int {
    lagrange_prefix(shares, shares.len() as int, p)
}

/// Some share's Lagrange denominator has no inverse modulo `p`: two shares
/// repeat an x-coordinate, or `p` is not prime.
pub open spec fn has_unusable_denominator(shares: Seq<(u64, u64)>, p: u64) -> bool {
    exists|i: int|
        0 <= i < shares.len() && #[trigger] gcd(
            p as nat,
            denominator(xs_of(shares), i, p as int) as nat,
        ) != 1
}

/// What reconstruction returns, as a function of its inputs: too few shares
/// are refused, a non-invertible denominator is refused, and otherwise the
/// result is the Lagrange interpolation at zero.
pub open spec fn reconstruct_spec(shares: Seq<(u64, u64)>, threshold: int, p: u64) -> Result<
    u64,
    ShamirError,
> {
    if shares.len() < threshold {
        Err(ShamirError::InsufficientShares)
    } else if has_unusable_denominator(shares, p) {
        Err(ShamirError::NoModularInverse)
    } else {
        Ok(lagrange_at_zero(shares, p as int) as u64)
    }
}

impl Shamir {
    /// How many shares reconstruction needs.
    pub closed spec fn spec_threshold(&self) -> int {
        self.threshold as int
    }

    /// How many shares a split issues.
    pub closed spec fn spec_share_count(&self) -> int {
        self.shares as int
    }

    /// The modulus of the scheme's field.
    pub closed spec fn spec_prime(&self) -> u64 {
        self.prime
    }

    /// A configuration the operations accept: at least one share is needed,
    /// no more than are issued, and the modulus exceeds the share count.
    pub open spec fn well_formed(&self) -> bool {
        &&& 1 <= self.spec_threshold() <= self.spec_share_count()
        &&& self.spec_share_count() < self.spec_prime() as int
        &&& self.spec_prime() >= 2
    }

    /// Build a configuration; a threshold above the share count is refused.
    pub fn new(threshold: usize, shares: usize, prime: u64) -> (r: Result<Self, ShamirError>)
        requires
            1 <= threshold,
            (shares as int) < prime as int,
            2 <= prime,
        ensures
            r is Ok <==> threshold <= shares,
            r matches Ok(s) ==> s.well_formed() && s.spec_threshold() == threshold
                && s.spec_share_count() == shares && s.spec_prime() == prime,
            r is Err ==> r == Err::<Shamir, ShamirError>(ShamirError::InvalidConfig),
    {
        if threshold > shares {
            Err(ShamirError::InvalidConfig)
        } else {
            Ok(Shamir { threshold, shares, prime })
        }
    }

    /// Split the secret into one share per participant: share `i` carries
    /// `x = i + 1` and the value at `x` of a polynomial whose constant term
    /// is the secret and whose other coefficients are random draws.
    pub fn split_secret(&self, secret: u64) -> (r: Vec<(u64, u64)>)
        requires
            self.well_formed(),
            secret < self.spec_prime(),
        ensures
            r@.len() == self.spec_share_count(),
            exists|c: Seq<int>|
                is_secret_polynomial(
                    c,
                    secret as int,
                    self.spec_threshold(),
                    self.spec_prime() as int,
                ) && shares_of_polynomial(r@, c, self.spec_prime() as int),
    {
        let coeffs = generate_coefficients(secret, self.threshold, self.prime);
        let shares = shares_for(&coeffs, self.shares, self.prime);
        proof {
            let c = coeffs_view(coeffs@);
            assert(is_secret_polynomial(
                c,
                secret as int,
                self.spec_threshold(),
                self.spec_prime() as int,
            ));
        }
        shares
    }

    /// Reconstruct the secret from the presented shares by Lagrange
    /// interpolation at zero.  Fewer shares than the threshold are refused;
    /// a share set in which some denominator has no inverse (two equal
    /// x-coordinates, or a non-prime modulus) is refused; shares beyond the
    /// threshold take part in the sum like any others.
    pub fn reconstruct_secret(&self, shares: &Vec<(u64, u64)>) -> (r: Result<u64, ShamirError>)
        requires
            self.well_formed(),
        ensures
            r == reconstruct_spec(shares@, self.spec_threshold(), self.spec_prime()),
    {
        if shares.len() < self.threshold {
            return Err(ShamirError::InsufficientShares);
        }
        let p: u64 = self.prime;
        let ghost xs = xs_of(shares@);
        let mut secret: u64 = 0;
        let mut i: usize = 0;
        while i < shares.len()
            invariant
                2 <= p,
                self.well_formed(),
                p == self.spec_prime(),
                shares@.len() >= self.spec_threshold(),
                i <= shares@.len(),
                xs == xs_of(shares@),
                xs.len() == shares@.len(),
                secret == lagrange_prefix(shares@, i as int, p as int),
                secret < p,
                forall|k: int|
                    0 <= k < i ==> #[trigger] gcd(p as nat, denominator(xs, k, p as int) as nat)
                        == 1,
            decreases shares@.len() - i,
        {
            let share_i = shares[i];
            let xi: u64 = share_i.0;
            let yi: u64 = share_i.1;
            let mut num: u64 = 1;
            let mut denom: u64 = 1;
            let mut j: usize = 0;
            proof {
                assert(xs[i as int] == shares@[i as int].0 as int);
            }
            while j < shares.len()
                invariant
                    2 <= p,
                    i < shares@.len(),
                    j <= shares@.len(),
                    xs == xs_of(shares@),
                    xs.len() == shares@.len(),
                    xi as int == xs[i as int],
                    num == numerator_prefix(xs, i as int, j as int, p as int),
                    denom == denominator_prefix(xs, i as int, j as int, p as int),
                    num < p,
                    denom < p,
                decreases shares@.len() - j,
            {
                if j != i {
                    let xj: u64 = shares[j].0;
                    proof {
                        assert(xs[j as int] == shares@[j as int].0 as int);
                    }
                    num = mul_mod(num, neg_mod(xj, p), p);
                    denom = mul_mod(denom, sub_mod(xi, xj, p), p);
                }
                j = j + 1;
            }
            proof {
                assert(num == numerator(xs, i as int, p as int));
                assert(denom == denominator(xs, i as int, p as int));
            }
            match mod_inverse(denom, p) {
                Ok(inverse) => {
                    let lc: u64 = mul_mod(num, inverse, p);
                    let term: u64 = mul_mod(yi, lc, p);
                    let next: u64 = add_mod(secret, term, p);
                    proof {
                        assert(lc as int == lagrange_coeff(xs, i as int, p as int));
                        assert(lagrange_prefix(shares@, i as int + 1, p as int) == (
                        lagrange_prefix(shares@, i as int, p as int) + (shares@[i as int].1 as int
                            * lagrange_coeff(xs_of(shares@), i as int, p as int)) % (p as int)) % (
                        p as int));
                    }
                    secret = next;
                    i = i + 1;
                },
                Err(_) => {
                    proof {
                        assert(gcd(p as nat, denominator(xs_of(shares@), i as int, p as int) as nat)
                            != 1);
                        assert(has_unusable_denominator(shares@, p));
                    }
                    return Err(ShamirError::NoModularInverse);
                },
            }
        }
        proof {
            if has_unusable_denominator(shares@, p) {
                let bad = choose|k: int|
                    0 <= k < shares@.len() && #[trigger] gcd(
                        p as nat,
                        denominator(xs_of(shares@), k, p as int) as nat,
                    ) != 1;
                assert(gcd(p as nat, denominator(xs, bad, p as int) as nat) == 1);
            }
            assert(lagrange_at_zero(shares@, p as int) == secret as int);
        }
        Ok(secret)
    }
}

/// Draw the coefficient vector of a split: the secret first, then
/// `threshold - 1` random field elements.
pub(crate) fn generate_coefficients(secret: u64, threshold: usize, prime: u64) -> (r: Vec<u64>)
    requires
        1 <= threshold,
        secret < prime,
        prime >= 2,
    ensures
        r@.len() == threshold,
        r@[0] == secret,
        forall|k: int| 0 <= k < r@.len() ==> #[trigger] r@[k] < prime,
{
    let mut coeffs: Vec<u64> = Vec::new();
    coeffs.push(secret);
    let mut k: usize = 1;
    while k < threshold
        invariant
            1 <= k <= threshold,
            prime >= 2,
            secret < prime,
            coeffs@.len() == k,
            coeffs@[0] == secret,
            forall|j: int| 0 <= j < coeffs@.len() ==> #[trigger] coeffs@[j] < prime,
        decreases threshold - k,
    {
        coeffs.push(random_field_element(prime));
        k = k + 1;
    }
    coeffs
}

/// Once a factor of a Lagrange denominator is zero, every longer prefix of
/// the product is zero as well.
proof fn lemma_denominator_zero_from(xs: Seq<int>, i: int, z: int, n: int, p: int)
    requires
        2 <= p,
        0 <= z < n <= xs.len(),
        z != i,
        (xs[i] - xs[z]) % p == 0,
    ensures
        denominator_prefix(xs, i, n, p) == 0,
    decreases n,
{
    if n == z + 1 {
        assert(denominator_prefix(xs, i, n, p) == (denominator_prefix(xs, i, z, p) * ((xs[i]
            - xs[z]) % p)) % p);
        assert(denominator_prefix(xs, i, z, p) * 0 == 0);
        assert(0int % p == 0);
    } else {
        lemma_denominator_zero_from(xs, i, z, n - 1, p);
        if n - 1 != i {
            assert(0int * ((xs[i] - xs[n - 1]) % p) == 0);
            assert(0int % p == 0);
        }
    }
}

/// Two shares that repeat an x-coordinate make reconstruction fail with
/// `NoModularInverse`: the repeated coordinate zeroes the other share's
/// Lagrange denominator, and zero has no inverse.
pub proof fn lemma_duplicate_x_rejected(
    shares: Seq<(u64, u64)>,
    threshold: int,
    p: u64,
    i: int,
    j: int,
)
    requires
        2 <= p,
        threshold <= shares.len(),
        0 <= i < shares.len(),
        0 <= j < shares.len(),
        i != j,
        shares[i].0 % p == shares[j].0 % p,
    ensures
        reconstruct_spec(shares, threshold, p) == Err::<u64, ShamirError>(
            ShamirError::NoModularInverse,
        ),
{
    let xs = xs_of(shares);
    let a = if i < j {
        j
    } else {
        i
    };
    let b = if i < j {
        i
    } else {
        j
    };
    assert(xs[a] == shares[a].0 as int);
    assert(xs[b] == shares[b].0 as int);
    lemma_sub_mod_noop(xs[a], xs[b], p as int);
    assert(xs[a] % (p as int) == shares[a].0 % p);
    assert(xs[b] % (p as int) == shares[b].0 % p);
    assert(xs[a] % (p as int) - xs[b] % (p as int) == 0);
    assert(0int % (p as int) == 0);
    assert((xs[a] - xs[b]) % (p as int) == 0);
    lemma_denominator_zero_from(xs, a, b, xs.len() as int, p as int);
    assert(denominator(xs, a, p as int) == 0);
    assert(gcd(p as nat, 0) == p);
    assert(gcd(p as nat, denominator(xs_of(shares), a, p as int) as nat) != 1);
    assert(has_unusable_denominator(shares, p));
}

/// Reconstruction from one genuine share of a threshold-one scheme returns
/// the constant polynomial's value: the secret itself.
pub proof fn lemma_single_share_reconstructs(share: (u64, u64), c: Seq<int>, p: u64)
    requires
        2 <= p,
        c.len() == 1,
        0 <= c[0] < p,
        share.1 as int == eval_at(c, share.0 as int, p as int),
    ensures
        reconstruct_spec(seq![share], 1, p) == Ok::<u64, ShamirError>(c[0] as u64),
{
    let s = seq![share];
    let xs = xs_of(s);
    let pi = p as int;
    assert(xs.len() == 1);
    assert(numerator_prefix(xs, 0, 0, pi) == 1);
    assert(denominator_prefix(xs, 0, 0, pi) == 1);
    assert(numerator(xs, 0, pi) == 1);
    assert(denominator(xs, 0, pi) == 1);
    lemma_small_mod(1, p as nat);
    assert((1int * 1int) % pi == 1);
    let w = inv_mod(1, pi);
    assert(0 <= w < pi && (1int * w) % pi == 1) by {
        assert(exists|b: int| 0 <= b < pi && #[trigger] ((1int * b) % pi) == 1) by {
            assert(0 <= 1int < pi && (1int * 1int) % pi == 1);
        }
    }
    lemma_inverse_unique(1, 1, w, pi);
    assert(w == 1);
    assert(lagrange_coeff(xs, 0, pi) == 1);
    assert(p as nat % 1 == 0);
    assert(gcd(1, 0) == 1);
    assert(gcd(p as nat, 1) == 1);
    if has_unusable_denominator(s, p) {
        let bad = choose|i: int|
            0 <= i < s.len() && #[trigger] gcd(p as nat, denominator(xs_of(s), i, pi) as nat) != 1;
        assert(bad == 0);
        assert(false);
    }
    let y = share.1 as int;
    let x0 = share.0 as int;
    let tail = c.subrange(1, c.len() as int);
    assert(poly_sum(c, x0) == c[0] + x0 * poly_sum(tail, x0));
    assert(tail =~= Seq::<int>::empty());
    assert(poly_sum(tail, x0) == 0);
    assert(x0 * 0 == 0);
    assert(poly_sum(c, x0) == c[0]);
    assert(y == c[0] % pi);
    lemma_small_mod(c[0] as nat, p as nat);
    assert(y == c[0]);
    assert(s[0].1 as int * lagrange_coeff(xs, 0, pi) == y);
    lemma_small_mod(y as nat, p as nat);
    assert(lagrange_prefix(s, 1, pi) == (lagrange_prefix(s, 0, pi) + (s[0].1 as int
        * lagrange_coeff(xs, 0, pi)) % pi) % pi);
    assert(lagrange_at_zero(s, pi) == y);
}

/// Reconstruction from two genuine shares of a threshold-two scheme returns
/// the polynomial's constant term: the secret.  The first share's Lagrange
/// denominator is required to have an inverse, which a prime modulus grants
/// whenever the two x-coordinates differ modulo it.
pub proof fn lemma_two_share_reconstructs(s: Seq<(u64, u64)>, c: Seq<int>, p: u64)
    requires
        2 <= p,
        c.len() == 2,
        0 <= c[0] < p,
        0 <= c[1] < p,
        s.len() == 2,
        s[0].1 as int == eval_at(c, s[0].0 as int, p as int),
        s[1].1 as int == eval_at(c, s[1].0 as int, p as int),
        exists|b: int|
            0 <= b < p && #[trigger] ((((s[0].0 as int - s[1].0 as int) % (p as int)) * b) % (
            p as int)) == 1,
    ensures
        reconstruct_spec(s, 2, p) == Ok::<u64, ShamirError>(c[0] as u64),
{
    let pi = p as int;
    let x1 = s[0].0 as int;
    let y1 = s[0].1 as int;
    let x2 = s[1].0 as int;
    let y2 = s[1].1 as int;
    let c0 = c[0];
    let c1 = c[1];
    let d1 = (x1 - x2) % pi;
    let d2 = (x2 - x1) % pi;
    let n1 = (0 - x2) % pi;
    let n2 = (0 - x1) % pi;
    let xs = xs_of(s);
    assert(xs.len() == 2 && xs[0] == x1 && xs[1] == x2);
    lemma_small_mod(n1 as nat, p as nat);
    lemma_small_mod(n2 as nat, p as nat);
    lemma_small_mod(d1 as nat, p as nat);
    lemma_small_mod(d2 as nat, p as nat);

    // the Lagrange products over two shares have a single factor each
    assert(numerator_prefix(xs, 0, 0, pi) == 1);
    assert(numerator_prefix(xs, 0, 1, pi) == 1);
    assert(numerator(xs, 0, pi) == (1 * n1) % pi == n1);
    assert(numerator_prefix(xs, 1, 0, pi) == 1);
    assert(numerator_prefix(xs, 1, 1, pi) == (1 * n2) % pi == n2);
    assert(numerator(xs, 1, pi) == numerator_prefix(xs, 1, 1, pi));
    assert(denominator_prefix(xs, 0, 0, pi) == 1);
    assert(denominator_prefix(xs, 0, 1, pi) == 1);
    assert(denominator(xs, 0, pi) == (1 * d1) % pi == d1);
    assert(denominator_prefix(xs, 1, 0, pi) == 1);
    assert(denominator_prefix(xs, 1, 1, pi) == (1 * d2) % pi == d2);
    assert(denominator(xs, 1, pi) == denominator_prefix(xs, 1, 1, pi));

    // the first denominator's inverse, from the hypothesis
    let w1 = inv_mod(d1, pi);
    assert(0 <= w1 < pi && (d1 * w1) % pi == 1);

    // the second denominator is the negation of the first, and the negated
    // inverse inverts it
    lemma_sub_mod_noop_right(0, x1 - x2, pi);
    assert(d2 == (0 - d1) % pi);
    let w2c = (0 - w1) % pi;
    assert((d2 * w2c) % pi == 1) by {
        lemma_mul_mod_noop_general(0 - d1, 0 - w1, pi);
        assert((d2 * w2c) % pi == ((0 - d1) * (0 - w1)) % pi);
        assert((0 - d1) * (0 - w1) == d1 * w1) by (nonlinear_arith);
    }
    let w2 = inv_mod(d2, pi);
    assert(0 <= w2 < pi && (d2 * w2) % pi == 1) by {
        assert(exists|b: int| 0 <= b < pi && #[trigger] ((d2 * b) % pi) == 1) by {
            assert(0 <= w2c < pi && (d2 * w2c) % pi == 1);
        }
    }
    lemma_inverse_unique(d2, w2c, w2, pi);
    assert(w2 == w2c);

    // both denominators are usable
    lemma_invertible_coprime(d1, w1, pi);
    lemma_invertible_coprime(d2, w2, pi);
    if has_unusable_denominator(s, p) {
        let bad = choose|i: int|
            0 <= i < s.len() && #[trigger] gcd(p as nat, denominator(xs_of(s), i, pi) as nat) != 1;
        assert(bad == 0 || bad == 1);
        assert(false);
    }

    // what the genuine share values are
    let t1 = c.subrange(1, 2);
    let t2 = t1.subrange(1, 1);
    assert(t1.len() == 1 && t1[0] == c1);
    assert(t2 =~= Seq::<int>::empty());
    assert(poly_sum(t2, x1) == 0);
    assert(poly_sum(t2, x2) == 0);
    assert(poly_sum(t1, x1) == c1 + x1 * poly_sum(t2, x1));
    assert(poly_sum(t1, x2) == c1 + x2 * poly_sum(t2, x2));
    assert(poly_sum(c, x1) == c0 + x1 * poly_sum(c.subrange(1, c.len() as int), x1));
    assert(c.subrange(1, c.len() as int) =~= t1);
    let vy1 = c0 + x1 * c1;
    let vy2 = c0 + x2 * c1;
    assert(y1 == vy1 % pi);
    assert(y2 == vy2 % pi);

    // the reconstruction sum, term by term
    let l1 = lagrange_coeff(xs, 0, pi);
    let l2 = lagrange_coeff(xs, 1, pi);
    assert(l1 == (n1 * w1) % pi);
    assert(l2 == (n2 * w2) % pi);
    let term1 = (y1 * l1) % pi;
    let term2 = (y2 * l2) % pi;
    assert(lagrange_prefix(s, 0, pi) == 0);
    assert(lagrange_prefix(s, 1, pi) == (0 + term1) % pi);
    lemma_small_mod(term1 as nat, p as nat);
    assert(lagrange_prefix(s, 1, pi) == term1);
    assert(lagrange_prefix(s, 2, pi) == (term1 + term2) % pi);
    let r = lagrange_at_zero(s, pi);
    assert(r == (term1 + term2) % pi);

    // fold the reductions of the two terms into one
    lemma_add_mod_noop(y1 * l1, y2 * l2, pi);
    assert(r == (y1 * l1 + y2 * l2) % pi);
    lemma_mul_mod_noop_right(y1, n1 * w1, pi);
    lemma_mul_mod_noop_right(y2, n2 * w2, pi);
    lemma_add_mod_noop(y1 * (n1 * w1), y2 * (n2 * w2), pi);
    assert(r == (y1 * (n1 * w1) + y2 * (n2 * w2)) % pi) by {
        assert((y1 * l1) % pi == (y1 * (n1 * w1)) % pi);
        assert((y2 * l2) % pi == (y2 * (n2 * w2)) % pi);
        assert(((y1 * (n1 * w1)) % pi + (y2 * (n2 * w2)) % pi) % pi == (y1 * (n1 * w1) + y2 * (n2
            * w2)) % pi);
    }

    // open the reduced numerators and the negated inverse
    assert((y1 * (n1 * w1)) % pi == (y1 * ((0 - x2) * w1)) % pi) by {
        lemma_mul_mod_noop_left(0 - x2, w1, pi);
        assert((n1 * w1) % pi == ((0 - x2) * w1) % pi);
        lemma_mul_mod_noop_right(y1, n1 * w1, pi);
        lemma_mul_mod_noop_right(y1, (0 - x2) * w1, pi);
    }
    assert((y2 * (n2 * w2)) % pi == (y2 * (x1 * w1)) % pi) by {
        lemma_mul_mod_noop_general(0 - x1, 0 - w1, pi);
        assert((n2 * w2) % pi == ((0 - x1) * (0 - w1)) % pi);
        assert((0 - x1) * (0 - w1) == x1 * w1) by (nonlinear_arith);
        lemma_mul_mod_noop_right(y2, n2 * w2, pi);
        lemma_mul_mod_noop_right(y2, x1 * w1, pi);
    }
    lemma_add_mod_noop(y1 * ((0 - x2) * w1), y2 * (x1 * w1), pi);
    assert(r == (y1 * ((0 - x2) * w1) + y2 * (x1 * w1)) % pi) by {
        assert(((y1 * ((0 - x2) * w1)) % pi + (y2 * (x1 * w1)) % pi) % pi == (y1 * ((0 - x2) * w1)
            + y2 * (x1 * w1)) % pi);
    }

    // gather the common inverse factor
    assert(y1 * ((0 - x2) * w1) + y2 * (x1 * w1) == w1 * (x1 * y2 - x2 * y1))
        by (nonlinear_arith);
    assert(r == (w1 * (x1 * y2 - x2 * y1)) % pi);

    // replace the reduced share values by the polynomial values
    assert((x1 * y2) % pi == (x1 * vy2) % pi) by {
        lemma_mul_mod_noop_right(x1, vy2, pi);
    }
    assert((x2 * y1) % pi == (x2 * vy1) % pi) by {
        lemma_mul_mod_noop_right(x2, vy1, pi);
    }
    assert(r == (w1 * (x1 * vy2 - x2 * vy1)) % pi) by {
        lemma_mul_mod_noop_right(w1, x1 * y2 - x2 * y1, pi);
        lemma_sub_mod_noop(x1 * y2, x2 * y1, pi);
        lemma_sub_mod_noop(x1 * vy2, x2 * vy1, pi);
        assert((x1 * y2 - x2 * y1) % pi == (x1 * vy2 - x2 * vy1) % pi);
        lemma_mul_mod_noop_right(w1, x1 * vy2 - x2 * vy1, pi);
    }

    // the polynomial values cancel down to the constant term
    assert(x1 * vy2 - x2 * vy1 == c0 * (x1 - x2)) by (nonlinear_arith)
        requires
            vy1 == c0 + x1 * c1,
            vy2 == c0 + x2 * c1,
    ;
    assert(w1 * (c0 * (x1 - x2)) == c0 * (w1 * (x1 - x2))) by (nonlinear_arith);
    assert(r == (c0 * (w1 * (x1 - x2))) % pi);

    // and the inverse cancels the denominator
    assert((w1 * (x1 - x2)) % pi == 1) by {
        lemma_mul_mod_noop_right(w1, x1 - x2, pi);
        assert((w1 * d1) % pi == (w1 * (x1 - x2)) % pi);
        assert(w1 * d1 == d1 * w1);
    }
    assert(r == c0) by {
        lemma_mul_mod_noop_right(c0, w1 * (x1 - x2), pi);
        assert((c0 * (w1 * (x1 - x2))) % pi == (c0 * 1) % pi);
        lemma_small_mod(c0 as nat, p as nat);
    }
    assert(reconstruct_spec(s, 2, p) == Ok::<u64, ShamirError>(c0 as u64));
}

/// Evaluate the polynomial at the participant indices `1..=num_shares`.
pub(crate) fn shares_for(coeffs: &Vec<u64>, num_shares: usize, prime: u64) -> (r: Vec<(u64, u64)>)
    requires
        prime >= 2,
        (num_shares as int) < prime as int,
    ensures
        r@.len() == num_shares,
        shares_of_polynomial(r@, coeffs_view(coeffs@), prime as int),
{
    let ghost c = coeffs_view(coeffs@);
    let mut out: Vec<(u64, u64)> = Vec::new();
    let mut i: usize = 0;
    while i < num_shares
        invariant
            prime >= 2,
            (num_shares as int) < prime as int,
            i <= num_shares,
            c == coeffs_view(coeffs@),
            out@.len() == i,
            forall|k: int|
                0 <= k < i ==> #[trigger] out@[k] == (
                    ((k + 1) as u64),
                    (eval_at(c, k + 1, prime as int) as u64),
                ),
        decreases num_shares - i,
    {
        let x: u64 = (i as u64) + 1;
        let y: u64 = evaluate_polynomial(coeffs, x, prime);
        out.push((x, y));
        i = i + 1;
    }
    out
}

} // verus!
