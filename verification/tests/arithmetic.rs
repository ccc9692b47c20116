use shamir::evaluate_polynomial;
use shamir::mod_exp;
use shamir::mod_inverse;
use shamir::ShamirError;

#[test]
fn mod_exp_values() {
    assert_eq!(mod_exp(2, 10, 1000), 24);
    assert_eq!(mod_exp(5, 0, 97), 1);
    assert_eq!(mod_exp(3, 4, 7), 4);
    assert_eq!(mod_exp(0, 5, 97), 0);
    // the squaring never leaves 64 bits even near the largest modulus
    assert_eq!(mod_exp(u64::MAX - 2, 3, u64::MAX - 1), u64::MAX - 2);
}

#[test]
fn mod_inverse_values() {
    assert_eq!(mod_inverse(3, 7), Ok(5));
    assert_eq!(mod_inverse(1, 97), Ok(1));
    assert_eq!(mod_inverse(96, 97), Ok(96));
    for a in 1..97 {
        let b = mod_inverse(a, 97).unwrap();
        assert_eq!((a as u128 * b as u128) % 97, 1);
    }
}

#[test]
fn mod_inverse_failures() {
    assert_eq!(mod_inverse(0, 7), Err(ShamirError::NoModularInverse));
    assert_eq!(mod_inverse(2, 4), Err(ShamirError::NoModularInverse));
    assert_eq!(mod_inverse(6, 9), Err(ShamirError::NoModularInverse));
}

#[test]
fn polynomial_evaluation_by_horner() {
    // 42 + 3x + 2x^2 at x = 2 is 56
    assert_eq!(evaluate_polynomial(&vec![42, 3, 2], 2, 97), 56);
    // the empty polynomial is zero
    assert_eq!(evaluate_polynomial(&vec![], 5, 97), 0);
    // a constant polynomial ignores x
    assert_eq!(evaluate_polynomial(&vec![13], 90, 97), 13);
    // reduction happens at every step, so large values stay exact
    // with p = u64::MAX - 58 the inputs are p + 57, p + 56 and p + 55,
    // so the value is 56 * 55 + 57
    assert_eq!(
        evaluate_polynomial(&vec![u64::MAX - 1, u64::MAX - 2], u64::MAX - 3, u64::MAX - 58),
        3137
    );
}
