//! The verification layer: one public commitment per coefficient (a plain
//! checksum, `coeff mod p`, not a hiding commitment) and the check of a
//! single share against a commitment set.

use crate::error::ShamirError;
use crate::field::add_mod;
use crate::field::mod_exp;
use crate::field::mul_mod;
use crate::poly::coeffs_view;
use crate::poly::eval_at;
use crate::poly::lemma_poly_sum_prefix_full;
use crate::poly::lemma_powsum_prefix_mod;
use crate::poly::powsum_prefix;
use crate::shamir::is_secret_polynomial;
use crate::shamir::shares_for;
use crate::shamir::shares_of_polynomial;
use vstd::arithmetic::div_mod::lemma_small_mod;
use vstd::prelude::*;

verus! {

/// The commitment sequence of a coefficient sequence: each entry reduced
/// modulo `p`.
pub open spec fn commitments_of(comm: Seq<u64>, c: Seq<int>, p: int) -> bool {
    &&& comm.len() == c.len()
    &&& forall|i: int| 0 <= i < c.len() ==> #[trigger] comm[i] as int == c[i] % p
}

/// Derive the public commitment for every coefficient: its value modulo the
/// modulus.
pub fn generate_commitments(coeffs: &Vec<u64>, prime: u64) -> (r: Vec<u64>)
    requires
        prime >= 1,
    ensures
        commitments_of(r@, coeffs_view(coeffs@), prime as int),
{
    let mut out: Vec<u64> = Vec::new();
    let mut i: usize = 0;
    while i < coeffs.len()
        invariant
            prime >= 1,
            i <= coeffs@.len(),
            out@.len() == i,
            forall|k: int| 0 <= k < i ==> #[trigger] out@[k] as int == coeffs_view(coeffs@)[k] % (
            prime as int),
        decreases coeffs@.len() - i,
    {
        out.push(coeffs[i] % prime);
        i = i + 1;
    }
    out
}

/// Check one share against a commitment set: recompute the expected value
/// as the power sum of the commitments at `x` and compare it with `y`.  An
/// empty commitment set cannot have come from any split and is refused.
pub fn verify_share(x: u64, y: u64, commitments: &Vec<u64>, prime: u64) -> (r: Result<
    bool,
    ShamirError,
>)
    requires
        prime >= 2,
    ensures
        r is Ok <==> commitments@.len() > 0,
        r matches Ok(b) ==> (b <==> y as int % (prime as int) == eval_at(
            coeffs_view(commitments@),
            x as int,
            prime as int,
        )),
        r is Err ==> r == Err::<bool, ShamirError>(ShamirError::MalformedCommitmentSet),
{
    if commitments.len() == 0 {
        return Err(ShamirError::MalformedCommitmentSet);
    }
    let ghost cv = coeffs_view(commitments@);
    let mut expected: u64 = 0;
    let mut i: usize = 0;
    while i < commitments.len()
        invariant
            prime >= 2,
            i <= commitments@.len(),
            cv == coeffs_view(commitments@),
            cv.len() == commitments@.len(),
            expected == powsum_prefix(cv, x as int, i as int, prime as int),
            expected < prime,
        decreases commitments@.len() - i,
    {
        let xp: u64 = mod_exp(x, i as u64, prime);
        let term: u64 = mul_mod(commitments[i], xp, prime);
        expected = add_mod(expected, term, prime);
        i = i + 1;
    }
    proof {
        lemma_powsum_prefix_mod(cv, x as int, cv.len() as int, prime as int);
        lemma_poly_sum_prefix_full(cv, x as int);
    }
    Ok(expected == y % prime)
}

/// Split a secret and derive the commitments of the same polynomial in one
/// call: the shares for participants `1..=num_shares`, and one commitment
/// per coefficient.
pub fn generate_shares(secret: u64, threshold: usize, num_shares: usize, prime: u64) -> (r: (
    Vec<(u64, u64)>,
    Vec<u64>,
))
    requires
        1 <= threshold <= num_shares,
        (num_shares as int) < prime as int,
        secret < prime,
        prime >= 2,
    ensures
        r.0@.len() == num_shares,
        exists|c: Seq<int>|
            is_secret_polynomial(c, secret as int, threshold as int, prime as int)
                && shares_of_polynomial(r.0@, c, prime as int) && commitments_of(
                r.1@,
                c,
                prime as int,
            ),
{
    let coeffs = crate::shamir::generate_coefficients(secret, threshold, prime);
    let commitments = generate_commitments(&coeffs, prime);
    let shares = shares_for(&coeffs, num_shares, prime);
    proof {
        let c = coeffs_view(coeffs@);
        assert forall|i: int| 0 <= i < c.len() implies #[trigger] commitments@[i] as int == c[i]
            % (prime as int) by {
            lemma_small_mod(coeffs@[i] as nat, prime as nat);
        }
        assert(is_secret_polynomial(c, secret as int, threshold as int, prime as int));
        assert(commitments_of(commitments@, c, prime as int));
    }
    (shares, commitments)
}

/// Honestly generated commitments accept every genuine share: the value a
/// split assigned to `x` matches the power sum of the commitments at `x`,
/// so `verify_share` answers `Ok(true)` for it.
pub proof fn lemma_verify_accepts_genuine(
    c: Seq<int>,
    comm: Seq<u64>,
    x: int,
    y: u64,
    p: int,
)
    requires
        2 <= p,
        forall|k: int| 0 <= k < c.len() ==> 0 <= #[trigger] c[k] < p,
        commitments_of(comm, c, p),
        y as int == eval_at(c, x, p),
    ensures
        y as int % p == eval_at(coeffs_view(comm), x, p),
{
    assert forall|k: int| 0 <= k < comm.len() implies #[trigger] coeffs_view(comm)[k] == c[k] by {
        lemma_small_mod(c[k] as nat, p as nat);
    }
    assert(coeffs_view(comm) =~= c);
    lemma_small_mod(y as nat, p as nat);
}

/// A tampered share value is always caught: any `y` below the modulus that
/// differs from the value the commitments recompute makes `verify_share`
/// answer `Ok(false)`.
pub proof fn lemma_verify_rejects_tampered(comm: Seq<u64>, x: int, y: u64, forged: u64, p: int)
    requires
        2 <= p,
        y as int == eval_at(coeffs_view(comm), x, p),
        forged < p,
        forged != y,
    ensures
        forged as int % p != eval_at(coeffs_view(comm), x, p),
{
    lemma_small_mod(forged as nat, p as nat);
}

} // verus!
