use elliptic::modular::mod_inverse;
use elliptic::CurveError;

#[test]
fn inverse_of_three_mod_seven() {
    assert_eq!(mod_inverse(3, 7), Ok(5));
    assert_eq!((3 * 5) % 7, 1);
}

#[test]
fn inverse_product_is_one_for_coprime_inputs() {
    let m: i64 = 313;
    for a in 1..m {
        let inv = mod_inverse(a, m).unwrap();
        assert_eq!((a * inv) % m, 1);
        assert!(0 <= inv && inv < m);
    }
}

#[test]
fn inverse_golden_values_mod_313() {
    assert_eq!(mod_inverse(198, 313), Ok(264));
    assert_eq!(mod_inverse(263, 313), Ok(169));
}

#[test]
fn inverse_of_one_is_one() {
    for m in [2i64, 3, 5, 7, 313, 1_073_741_789] {
        assert_eq!(mod_inverse(1, m), Ok(1));
    }
}

#[test]
fn inverse_of_zero_fails() {
    assert_eq!(mod_inverse(0, 7), Err(CurveError::NotInvertible));
    assert_eq!(mod_inverse(7, 7), Err(CurveError::NotInvertible));
    assert_eq!(mod_inverse(14, 7), Err(CurveError::NotInvertible));
}

#[test]
fn inverse_of_non_coprime_fails() {
    assert_eq!(mod_inverse(4, 8), Err(CurveError::NotInvertible));
    assert_eq!(mod_inverse(6, 9), Err(CurveError::NotInvertible));
    assert_eq!(mod_inverse(5, 9), Ok(2));
}

#[test]
fn inverse_near_the_modulus_limit() {
    let m: i64 = 1_073_741_789;
    let inv = mod_inverse(2, m).unwrap();
    assert_eq!((2 * inv) % m, 1);
}
