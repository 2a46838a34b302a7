use avl_tree::rational::gcd;
use avl_tree::rational::Fraction;
use avl_tree::rational::FractionSign;
use avl_tree::rational::RationalError;

#[test]
fn test_gcd_with_corner_cases() {
    assert_eq!(gcd(42, 12), 6);
    assert_eq!(gcd(12, 42), 6);
    assert_eq!(gcd(100, 0), 100);
    assert_eq!(gcd(0, 100), 100);
    assert_eq!(gcd(37, 73), 1);
    assert_eq!(gcd(42, 1), 1);
    assert_eq!(gcd(1, 42), 1);
}

#[test]
fn test_new_fraction_with_corner_cases() {
    assert_eq!(
        Fraction::new(42, 12, FractionSign::NonNegative),
        Some(Fraction {
            numer: 7,
            denom: 2,
            sign: FractionSign::NonNegative
        })
    );
    assert_eq!(
        Fraction::new(12, 42, FractionSign::NonNegative),
        Some(Fraction {
            numer: 2,
            denom: 7,
            sign: FractionSign::NonNegative
        })
    );
    assert_eq!(Fraction::new(100, 0, FractionSign::NonNegative), None);
    assert_eq!(
        Fraction::new(0, 100, FractionSign::NonNegative),
        Some(Fraction {
            numer: 0,
            denom: 1,
            sign: FractionSign::NonNegative
        })
    );
    assert_eq!(
        Fraction::new(37, 73, FractionSign::NonNegative),
        Some(Fraction {
            numer: 37,
            denom: 73,
            sign: FractionSign::NonNegative
        })
    );
    assert_eq!(
        Fraction::new(42, 1, FractionSign::NonNegative),
        Some(Fraction {
            numer: 42,
            denom: 1,
            sign: FractionSign::NonNegative
        })
    );
    assert_eq!(
        Fraction::new(42, 12, FractionSign::NonNegative),
        Some(Fraction {
            numer: 7,
            denom: 2,
            sign: FractionSign::NonNegative
        })
    );
    assert_eq!(
        Fraction::new(1, 42, FractionSign::NonNegative),
        Some(Fraction {
            numer: 1,
            denom: 42,
            sign: FractionSign::NonNegative
        })
    );
}

#[test]
fn test_fraction_add() {
    assert_eq!(
        Fraction::with_non_negative(1, 2)
            .unwrap()
            .checked_add(Fraction::with_non_negative(1, 2).unwrap())
            .unwrap(),
        Fraction::new(1, 1, FractionSign::NonNegative).unwrap()
    );
    assert_eq!(
        Fraction::with_non_negative(1, 2)
            .unwrap()
            .checked_add(Fraction::with_negative(1, 2).unwrap())
            .unwrap(),
        Fraction::new(0, 1, FractionSign::NonNegative).unwrap()
    );
    assert_eq!(
        Fraction::with_non_negative(1, 2)
            .unwrap()
            .checked_add(Fraction::with_negative(1, 3).unwrap())
            .unwrap(),
        Fraction::new(1, 6, FractionSign::NonNegative).unwrap()
    );
    assert_eq!(
        Fraction::with_negative(1, 2)
            .unwrap()
            .checked_add(Fraction::with_negative(1, 3).unwrap())
            .unwrap(),
        Fraction::new(5, 6, FractionSign::Negative).unwrap()
    );
    assert_eq!(
        Fraction::with_non_negative(0, 1)
            .unwrap()
            .checked_add(Fraction::with_negative(1, 2).unwrap())
            .unwrap(),
        Fraction::new(1, 2, FractionSign::Negative).unwrap()
    );
    assert_eq!(
        Fraction::with_negative(1, 6)
            .unwrap()
            .checked_add(Fraction::with_negative(1, 2).unwrap())
            .unwrap(),
        Fraction::new(2, 3, FractionSign::Negative).unwrap()
    );
    assert_eq!(
        Fraction::with_non_negative(1, 3)
            .unwrap()
            .checked_add(Fraction::with_negative(1, 2).unwrap())
            .unwrap(),
        Fraction::new(1, 6, FractionSign::Negative).unwrap()
    );
    assert_eq!(
        Fraction::with_non_negative(1, 2)
            .unwrap()
            .checked_add(1u32.into())
            .unwrap(),
        Fraction::with_non_negative(3, 2).unwrap()
    );
}

#[test]
fn test_fraction_ord() {
    assert!(Fraction::with_non_negative(1, 2).unwrap() > Fraction::with_non_negative(1, 3).unwrap());
    assert!(Fraction::with_non_negative(1, 1).unwrap() > Fraction::with_non_negative(0, 1).unwrap());
    assert!(Fraction::with_non_negative(1, 2).unwrap() > Fraction::with_negative(2, 3).unwrap());
    assert!(Fraction::with_non_negative(1, 2).unwrap() < Fraction::with_non_negative(2, 3).unwrap());
    assert!(
        Fraction::with_non_negative(1, 2).unwrap() == Fraction::with_non_negative(50, 100).unwrap()
    );
    assert!(
        Fraction::with_non_negative(0, 2).unwrap() == Fraction::with_non_negative(0, 3).unwrap()
    );
}

#[test]
fn test_fraction_sub() {
    assert_eq!(
        Fraction::with_non_negative(1, 2)
            .unwrap()
            .checked_sub(Fraction::with_non_negative(1, 3).unwrap())
            .unwrap(),
        Fraction::with_non_negative(1, 6).unwrap()
    );
    assert_eq!(
        Fraction::with_non_negative(1, 3)
            .unwrap()
            .checked_sub(Fraction::with_non_negative(1, 2).unwrap())
            .unwrap(),
        Fraction::with_negative(1, 6).unwrap()
    );
    assert_eq!(
        Fraction::with_negative(1, 2)
            .unwrap()
            .checked_sub(Fraction::with_negative(1, 2).unwrap())
            .unwrap(),
        Fraction::with_non_negative(0, 1).unwrap()
    );
}

#[test]
fn test_fraction_mul() {
    assert_eq!(
        Fraction::with_non_negative(1, 2)
            .unwrap()
            .checked_mul(Fraction::with_non_negative(2, 3).unwrap())
            .unwrap(),
        Fraction::with_non_negative(1, 3).unwrap()
    );
    assert_eq!(
        Fraction::with_negative(1, 2)
            .unwrap()
            .checked_mul(Fraction::with_non_negative(2, 3).unwrap())
            .unwrap(),
        Fraction::with_negative(1, 3).unwrap()
    );
    assert_eq!(
        Fraction::with_negative(1, 2)
            .unwrap()
            .checked_mul(Fraction::with_negative(2, 3).unwrap())
            .unwrap(),
        Fraction::with_non_negative(1, 3).unwrap()
    );
}

#[test]
fn test_fraction_div() {
    // The reciprocal is built from the divisor's denominator over the
    // dividend's numerator, so 1/2 over 3/4 multiplies 1/2 by 4/1.
    assert_eq!(
        Fraction::with_non_negative(1, 2)
            .unwrap()
            .checked_div(Fraction::with_non_negative(3, 4).unwrap())
            .unwrap(),
        Fraction::with_non_negative(2, 1).unwrap()
    );
    assert_eq!(
        Fraction::with_non_negative(1, 2)
            .unwrap()
            .checked_div(Fraction::with_non_negative(0, 5).unwrap()),
        Err(RationalError::DivideByZero)
    );
    // A zero dividend is rejected too: the built fraction would have a zero
    // denominator.
    assert_eq!(
        Fraction::with_non_negative(0, 1)
            .unwrap()
            .checked_div(Fraction::with_non_negative(2, 3).unwrap()),
        Err(RationalError::DivideByZero)
    );
    // Both factors carry the dividend's sign, so the result is non-negative:
    // -4/3 is multiplied by -3/4.
    assert_eq!(
        Fraction::with_negative(4, 3)
            .unwrap()
            .checked_div(Fraction::with_non_negative(2, 3).unwrap())
            .unwrap(),
        Fraction::with_non_negative(1, 1).unwrap()
    );
}

#[test]
fn test_overflow_errors() {
    let big = Fraction::with_non_negative(u32::MAX, 1).unwrap();
    assert_eq!(
        big.checked_add(big),
        Err(RationalError::NumeratorOverflow)
    );
    let thin_a = Fraction::with_non_negative(1, u32::MAX).unwrap();
    let thin_b = Fraction::with_non_negative(1, u32::MAX - 1).unwrap();
    assert_eq!(
        thin_a.checked_mul(thin_b),
        Err(RationalError::DenominatorOverflow)
    );
}

#[test]
fn test_accessors() {
    let f = Fraction::new(10, 4, FractionSign::Negative).unwrap();
    assert_eq!(f.numer(), 5);
    assert_eq!(f.denom(), 2);
    assert_eq!(f.sign(), FractionSign::Negative);
}
