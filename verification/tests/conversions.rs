use avl_tree::frac::Fraction;

#[test]
fn test_from_primitive() {
    assert_eq!(
        Fraction::from(20_u32),
        Fraction::with_non_negative(20, 1).unwrap()
    );
    assert_eq!(
        Fraction::from(-20_i32),
        Fraction::with_negative(20, 1).unwrap()
    );
    assert_eq!(
        Fraction::from(0_i32),
        Fraction::with_non_negative(0, 1).unwrap()
    );
    assert_eq!(
        Fraction::from(0_i8),
        Fraction::with_non_negative(0, 1).unwrap()
    );
    assert_eq!(
        Fraction::from(-128_i8),
        Fraction::with_negative(128, 1).unwrap()
    );
    assert_eq!(
        Fraction::try_from(u64::from(u32::MAX)),
        Ok(Fraction::with_non_negative(u32::MAX, 1).unwrap())
    );
    assert_eq!(Fraction::try_from(u64::MAX), Err(u64::MAX));
    assert_eq!(
        Fraction::try_from(-128_i64),
        Ok(Fraction::with_negative(128, 1).unwrap())
    );
}

#[test]
fn test_from_small_and_wide_primitives() {
    assert_eq!(
        Fraction::from(7_u8),
        Fraction::with_non_negative(7, 1).unwrap()
    );
    assert_eq!(
        Fraction::from(300_u16),
        Fraction::with_non_negative(300, 1).unwrap()
    );
    assert_eq!(
        Fraction::from(-300_i16),
        Fraction::with_negative(300, 1).unwrap()
    );
    assert_eq!(
        Fraction::try_from(12_u128),
        Ok(Fraction::with_non_negative(12, 1).unwrap())
    );
    assert_eq!(Fraction::try_from(u128::MAX), Err(u128::MAX));
    assert_eq!(
        Fraction::try_from(-12_i128),
        Ok(Fraction::with_negative(12, 1).unwrap())
    );
    assert_eq!(Fraction::try_from(i128::MIN), Err(i128::MIN));
    assert_eq!(Fraction::try_from(i64::MIN), Err(i64::MIN));
}

#[test]
fn test_signed_lower_bounds() {
    // The lowest accepted value has magnitude u32::MAX + 1; only the low 32
    // bits of the magnitude are kept, so it maps to a negative zero.
    let low64 = -(u32::MAX as i64) - 1;
    assert_eq!(
        Fraction::try_from(low64),
        Ok(Fraction::with_negative(0, 1).unwrap())
    );
    assert_eq!(Fraction::try_from(low64 - 1), Err(low64 - 1));
    assert_eq!(
        Fraction::try_from(-(u32::MAX as i64)),
        Ok(Fraction::with_negative(u32::MAX, 1).unwrap())
    );

    let low128 = -(u32::MAX as i128) - 1;
    assert_eq!(
        Fraction::try_from(low128),
        Ok(Fraction::with_negative(0, 1).unwrap())
    );
    assert_eq!(Fraction::try_from(low128 - 1), Err(low128 - 1));
}
