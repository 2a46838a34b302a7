use avl_tree::frac::gcd;
use avl_tree::frac::Fraction;
use avl_tree::frac::FractionSign;

#[test]
fn frac_test_gcd_with_corner_cases() {
    assert_eq!(gcd(42, 12), 6);
    assert_eq!(gcd(12, 42), 6);
    assert_eq!(gcd(100, 0), 100);
    assert_eq!(gcd(0, 100), 100);
    assert_eq!(gcd(37, 73), 1);
    assert_eq!(gcd(42, 1), 1);
    assert_eq!(gcd(1, 42), 1);
}

#[test]
fn frac_test_new_fraction_with_corner_cases() {
    assert_eq!(
        Fraction::new(42, 12, FractionSign::NonNegative),
        Some(Fraction {
            numer: 7,
            denom: 2,
            sign: FractionSign::NonNegative
        })
    );
    assert_eq!(
        Fraction::new(12, 42, FractionSign::NonNegative),
        Some(Fraction {
            numer: 2,
            denom: 7,
            sign: FractionSign::NonNegative
        })
    );
    assert_eq!(Fraction::new(100, 0, FractionSign::NonNegative), None);
    assert_eq!(
        Fraction::new(0, 100, FractionSign::NonNegative),
        Some(Fraction {
            numer: 0,
            denom: 1,
            sign: FractionSign::NonNegative
        })
    );
    assert_eq!(
        Fraction::new(37, 73, FractionSign::NonNegative),
        Some(Fraction {
            numer: 37,
            denom: 73,
            sign: FractionSign::NonNegative
        })
    );
    assert_eq!(
        Fraction::new(42, 1, FractionSign::NonNegative),
        Some(Fraction {
            numer: 42,
            denom: 1,
            sign: FractionSign::NonNegative
        })
    );
    assert_eq!(
        Fraction::new(42, 12, FractionSign::NonNegative),
        Some(Fraction {
            numer: 7,
            denom: 2,
            sign: FractionSign::NonNegative
        })
    );
    assert_eq!(
        Fraction::new(1, 42, FractionSign::NonNegative),
        Some(Fraction {
            numer: 1,
            denom: 42,
            sign: FractionSign::NonNegative
        })
    );
}

#[test]
fn frac_builders_carry_their_sign() {
    assert_eq!(
        Fraction::with_non_negative(3, 6),
        Some(Fraction {
            numer: 1,
            denom: 2,
            sign: FractionSign::NonNegative
        })
    );
    assert_eq!(
        Fraction::with_negative(3, 6),
        Some(Fraction {
            numer: 1,
            denom: 2,
            sign: FractionSign::Negative
        })
    );
    assert_eq!(Fraction::with_non_negative(1, 0), None);
    assert_eq!(Fraction::with_negative(1, 0), None);
}
