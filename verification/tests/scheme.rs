use shamir::Shamir;
use shamir::ShamirError;

#[test]
fn small_prime_split_and_every_threshold_subset() {
    let scheme = Shamir::new(3, 5, 97).unwrap();
    let shares = scheme.split_secret(42);
    assert_eq!(shares.len(), 5);
    for (k, &(x, y)) in shares.iter().enumerate() {
        assert_eq!(x, (k + 1) as u64);
        assert!(y < 97);
    }
    for i in 0..5 {
        for j in (i + 1)..5 {
            for k in (j + 1)..5 {
                let subset = vec![shares[i], shares[j], shares[k]];
                assert_eq!(scheme.reconstruct_secret(&subset), Ok(42));
            }
        }
    }
}

#[test]
fn superset_of_shares_gives_the_same_secret() {
    let scheme = Shamir::new(3, 5, 97).unwrap();
    let shares = scheme.split_secret(42);
    let four = shares[..4].to_vec();
    let five = shares.clone();
    assert_eq!(scheme.reconstruct_secret(&four), Ok(42));
    assert_eq!(scheme.reconstruct_secret(&five), Ok(42));
}

#[test]
fn too_few_shares_are_refused() {
    let scheme = Shamir::new(3, 5, 97).unwrap();
    let shares = scheme.split_secret(42);
    let two = shares[..2].to_vec();
    assert_eq!(
        scheme.reconstruct_secret(&two),
        Err(ShamirError::InsufficientShares)
    );
    assert_eq!(
        scheme.reconstruct_secret(&vec![]),
        Err(ShamirError::InsufficientShares)
    );
}

#[test]
fn duplicate_x_coordinates_are_refused() {
    let scheme = Shamir::new(3, 5, 97).unwrap();
    let shares = vec![(1, 10), (1, 20), (2, 30)];
    assert_eq!(
        scheme.reconstruct_secret(&shares),
        Err(ShamirError::NoModularInverse)
    );
}

#[test]
fn threshold_above_share_count_is_refused() {
    assert!(matches!(Shamir::new(6, 5, 97), Err(ShamirError::InvalidConfig)));
    assert!(Shamir::new(5, 5, 97).is_ok());
}

#[test]
fn threshold_equal_to_share_count_round_trips() {
    let scheme = Shamir::new(4, 4, 7919).unwrap();
    let shares = scheme.split_secret(6171);
    assert_eq!(scheme.reconstruct_secret(&shares), Ok(6171));
}

#[test]
fn single_share_threshold_round_trips() {
    let scheme = Shamir::new(1, 3, 101).unwrap();
    let shares = scheme.split_secret(77);
    for share in &shares {
        assert_eq!(scheme.reconstruct_secret(&vec![*share]), Ok(77));
    }
}

#[test]
fn extreme_secrets_round_trip() {
    let scheme = Shamir::new(2, 3, 97).unwrap();
    let zero = scheme.split_secret(0);
    assert_eq!(scheme.reconstruct_secret(&zero[..2].to_vec()), Ok(0));
    let top = scheme.split_secret(96);
    assert_eq!(scheme.reconstruct_secret(&top[..2].to_vec()), Ok(96));
}
