use shamir::generate_commitments;
use shamir::generate_shares;
use shamir::verify_share;
use shamir::Shamir;
use shamir::ShamirError;

#[test]
fn large_prime_commitments_verify_and_reconstruct() {
    let prime: u64 = 32416190071;
    let secret: u64 = 123456789;
    let (shares, commitments) = generate_shares(secret, 3, 5, prime);
    assert_eq!(shares.len(), 5);
    assert_eq!(commitments.len(), 3);
    for &(x, y) in &shares {
        assert_eq!(verify_share(x, y, &commitments, prime), Ok(true));
    }
    let scheme = Shamir::new(3, 5, prime).unwrap();
    let first_three = shares[..3].to_vec();
    assert_eq!(scheme.reconstruct_secret(&first_three), Ok(secret));
}

#[test]
fn tampered_share_is_rejected() {
    let prime: u64 = 32416190071;
    let (shares, commitments) = generate_shares(123456789, 3, 5, prime);
    let (x, y) = shares[0];
    let forged = (y + 1) % prime;
    assert_eq!(verify_share(x, forged, &commitments, prime), Ok(false));
}

#[test]
fn empty_commitment_set_is_malformed() {
    let empty: Vec<u64> = Vec::new();
    assert_eq!(
        verify_share(1, 5, &empty, 97),
        Err(ShamirError::MalformedCommitmentSet)
    );
}

#[test]
fn commitments_reduce_each_coefficient() {
    let coeffs = vec![100, 98, 1, 0, 97];
    assert_eq!(generate_commitments(&coeffs, 97), vec![3, 1, 1, 0, 0]);
}

#[test]
fn verify_share_recomputes_the_power_sum() {
    let commitments = vec![42, 5, 7];
    // at x = 1: 42 + 5 + 7 = 54
    assert_eq!(verify_share(1, 54, &commitments, 97), Ok(true));
    // at x = 2: 42 + 10 + 28 = 80
    assert_eq!(verify_share(2, 80, &commitments, 97), Ok(true));
    assert_eq!(verify_share(2, 81, &commitments, 97), Ok(false));
    // a y value at or above the modulus is compared reduced
    assert_eq!(verify_share(2, 80 + 97, &commitments, 97), Ok(true));
}
