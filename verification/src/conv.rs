//! Conversions from the primitive integers into [`Fraction`]: every integer
//! becomes the fraction over denominator 1 that carries its magnitude and
//! sign.  The conversions from 64-bit and wider integers are fallible and
//! hand the value back when its magnitude does not fit in 32 bits.

use crate::frac::Fraction;
use crate::frac::FractionSign;
use crate::frac::gcd_spec;
use vstd::prelude::*;

verus! {

/// The fraction `m / 1` with the given sign.
pub open spec fn whole_fraction(m: u32, sign: FractionSign) -> Fraction {
    Fraction { numer: m, denom: 1, sign }
}

/// Division by a gcd of 1 changes nothing, and the gcd of anything with 1 is
/// 1.
proof fn lemma_whole_reduction(m: u32)
    ensures
        gcd_spec(m as nat, 1) == 1,
        m as nat / 1 == m as nat,
{
    assert(gcd_spec(m as nat, 1) == gcd_spec(1, m as nat % 1));
    assert(m as nat % 1 == 0);
    assert(gcd_spec(1, 0) == 1);
}

impl From<u32> for Fraction {
    /// A 32-bit unsigned value is the non-negative fraction over 1.
    fn from(value: u32) -> (r: Self) {
        proof {
            lemma_whole_reduction(value);
        }
        Self::new(value, 1, FractionSign::NonNegative).unwrap()
    }
}

impl vstd::std_specs::convert::FromSpecImpl<u32> for Fraction {
    open spec fn obeys_from_spec() -> bool {
        true
    }

    open spec fn from_spec(v: u32) -> Fraction {
        whole_fraction(v, FractionSign::NonNegative)
    }
}

impl From<u8> for Fraction {
    /// An 8-bit unsigned value is the non-negative fraction over 1.
    fn from(value: u8) -> (r: Self) {
        proof {
            lemma_whole_reduction(value as u32);
        }
        Self::new(value as u32, 1, FractionSign::NonNegative).unwrap()
    }
}

impl vstd::std_specs::convert::FromSpecImpl<u8> for Fraction {
    open spec fn obeys_from_spec() -> bool {
        true
    }

    open spec fn from_spec(v: u8) -> Fraction {
        whole_fraction(v as u32, FractionSign::NonNegative)
    }
}

impl From<u16> for Fraction {
    /// A 16-bit unsigned value is the non-negative fraction over 1.
    fn from(value: u16) -> (r: Self) {
        proof {
            lemma_whole_reduction(value as u32);
        }
        Self::new(value as u32, 1, FractionSign::NonNegative).unwrap()
    }
}

impl vstd::std_specs::convert::FromSpecImpl<u16> for Fraction {
    open spec fn obeys_from_spec() -> bool {
        true
    }

    open spec fn from_spec(v: u16) -> Fraction {
        whole_fraction(v as u32, FractionSign::NonNegative)
    }
}

impl From<i8> for Fraction {
    /// An 8-bit signed value becomes the fraction over 1 that carries its
    /// magnitude, negative when the value is.
    fn from(value: i8) -> (r: Self) {
        if value < 0 {
            let m = (-(value as i64)) as u32;
            proof {
                lemma_whole_reduction(m);
            }
            Self::new(m, 1, FractionSign::Negative).unwrap()
        } else {
            proof {
                lemma_whole_reduction(value as u32);
            }
            Self::new(value as u32, 1, FractionSign::NonNegative).unwrap()
        }
    }
}

impl vstd::std_specs::convert::FromSpecImpl<i8> for Fraction {
    open spec fn obeys_from_spec() -> bool {
        true
    }

    open spec fn from_spec(v: i8) -> Fraction {
        if v < 0 {
            whole_fraction((-(v as int)) as u32, FractionSign::Negative)
        } else {
            whole_fraction(v as u32, FractionSign::NonNegative)
        }
    }
}

impl From<i16> for Fraction {
    /// A 16-bit signed value becomes the fraction over 1 that carries its
    /// magnitude, negative when the value is.
    fn from(value: i16) -> (r: Self) {
        if value < 0 {
            let m = (-(value as i64)) as u32;
            proof {
                lemma_whole_reduction(m);
            }
            Self::new(m, 1, FractionSign::Negative).unwrap()
        } else {
            proof {
                lemma_whole_reduction(value as u32);
            }
            Self::new(value as u32, 1, FractionSign::NonNegative).unwrap()
        }
    }
}

impl vstd::std_specs::convert::FromSpecImpl<i16> for Fraction {
    open spec fn obeys_from_spec() -> bool {
        true
    }

    open spec fn from_spec(v: i16) -> Fraction {
        if v < 0 {
            whole_fraction((-(v as int)) as u32, FractionSign::Negative)
        } else {
            whole_fraction(v as u32, FractionSign::NonNegative)
        }
    }
}

impl From<i32> for Fraction {
    /// A 32-bit signed value becomes the fraction over 1 that carries its
    /// magnitude, negative when the value is.
    fn from(value: i32) -> (r: Self) {
        if value < 0 {
            let m = (-(value as i64)) as u32;
            proof {
                lemma_whole_reduction(m);
            }
            Self::new(m, 1, FractionSign::Negative).unwrap()
        } else {
            proof {
                lemma_whole_reduction(value as u32);
            }
            Self::new(value as u32, 1, FractionSign::NonNegative).unwrap()
        }
    }
}

impl vstd::std_specs::convert::FromSpecImpl<i32> for Fraction {
    open spec fn obeys_from_spec() -> bool {
        true
    }

    open spec fn from_spec(v: i32) -> Fraction {
        if v < 0 {
            whole_fraction((-(v as int)) as u32, FractionSign::Negative)
        } else {
            whole_fraction(v as u32, FractionSign::NonNegative)
        }
    }
}

impl TryFrom<u64> for Fraction {
    type Error = u64;

    /// A 64-bit unsigned value becomes the non-negative fraction over 1 when
    /// it fits in 32 bits, and comes back unchanged otherwise.
    fn try_from(value: u64) -> (r: Result<Self, u64>) {
        if value > u32::MAX as u64 {
            return Err(value);
        }
        proof {
            lemma_whole_reduction(value as u32);
        }
        Ok(Self::from(value as u32))
    }
}

impl vstd::std_specs::convert::TryFromSpecImpl<u64> for Fraction {
    open spec fn obeys_try_from_spec() -> bool {
        true
    }

    open spec fn try_from_spec(v: u64) -> Result<Fraction, u64> {
        if v > u32::MAX {
            Err(v)
        } else {
            Ok(whole_fraction(v as u32, FractionSign::NonNegative))
        }
    }
}

impl TryFrom<u128> for Fraction {
    type Error = u128;

    /// A 128-bit unsigned value becomes the non-negative fraction over 1
    /// when it fits in 32 bits, and comes back unchanged otherwise.
    fn try_from(value: u128) -> (r: Result<Self, u128>) {
        if value > u32::MAX as u128 {
            return Err(value);
        }
        proof {
            lemma_whole_reduction(value as u32);
        }
        Ok(Self::from(value as u32))
    }
}

impl vstd::std_specs::convert::TryFromSpecImpl<u128> for Fraction {
    open spec fn obeys_try_from_spec() -> bool {
        true
    }

    open spec fn try_from_spec(v: u128) -> Result<Fraction, u128> {
        if v > u32::MAX {
            Err(v)
        } else {
            Ok(whole_fraction(v as u32, FractionSign::NonNegative))
        }
    }
}

impl TryFrom<i64> for Fraction {
    type Error = i64;

    /// A 64-bit signed value becomes the fraction over 1 that carries its
    /// magnitude, negative when the value is; values whose magnitude needs
    /// more than one bit beyond 32 come back unchanged.  The bounds admit one
    /// magnitude too large for 32 bits, `u32::MAX + 1`: that value keeps only
    /// the low 32 bits of its magnitude and so maps to a negative zero.
    fn try_from(value: i64) -> (r: Result<Self, i64>) {
        if value > u32::MAX as i64 || value < -(u32::MAX as i64) - 1 {
            Err(value)
        } else if value < 0 {
            let m: u32 = if value < -(u32::MAX as i64) {
                0
            } else {
                (-value) as u32
            };
            proof {
                lemma_whole_reduction(m);
            }
            Ok(Self::new(m, 1, FractionSign::Negative).unwrap())
        } else {
            proof {
                lemma_whole_reduction(value as u32);
            }
            Ok(Self::new(value as u32, 1, FractionSign::NonNegative).unwrap())
        }
    }
}

impl vstd::std_specs::convert::TryFromSpecImpl<i64> for Fraction {
    open spec fn obeys_try_from_spec() -> bool {
        true
    }

    open spec fn try_from_spec(v: i64) -> Result<Fraction, i64> {
        if v > u32::MAX || v < -(u32::MAX as int) - 1 {
            Err(v)
        } else if v < -(u32::MAX as int) {
            Ok(whole_fraction(0, FractionSign::Negative))
        } else if v < 0 {
            Ok(whole_fraction((-(v as int)) as u32, FractionSign::Negative))
        } else {
            Ok(whole_fraction(v as u32, FractionSign::NonNegative))
        }
    }
}

impl TryFrom<i128> for Fraction {
    type Error = i128;

    /// A 128-bit signed value becomes the fraction over 1 that carries its
    /// magnitude, negative when the value is, with the same bounds as the
    /// 64-bit conversion: magnitudes past `u32::MAX + 1` come back unchanged,
    /// and the one admitted magnitude beyond 32 bits maps to a negative zero.
    fn try_from(value: i128) -> (r: Result<Self, i128>) {
        if value > u32::MAX as i128 || value < -(u32::MAX as i128) - 1 {
            Err(value)
        } else if value < 0 {
            let m: u32 = if value < -(u32::MAX as i128) {
                0
            } else {
                (-value) as u32
            };
            proof {
                lemma_whole_reduction(m);
            }
            Ok(Self::new(m, 1, FractionSign::Negative).unwrap())
        } else {
            proof {
                lemma_whole_reduction(value as u32);
            }
            Ok(Self::new(value as u32, 1, FractionSign::NonNegative).unwrap())
        }
    }
}

impl vstd::std_specs::convert::TryFromSpecImpl<i128> for Fraction {
    open spec fn obeys_try_from_spec() -> bool {
        true
    }

    open spec fn try_from_spec(v: i128) -> Result<Fraction, i128> {
        if v > u32::MAX || v < -(u32::MAX as int) - 1 {
            Err(v)
        } else if v < -(u32::MAX as int) {
            Ok(whole_fraction(0, FractionSign::Negative))
        } else if v < 0 {
            Ok(whole_fraction((-(v as int)) as u32, FractionSign::Negative))
        } else {
            Ok(whole_fraction(v as u32, FractionSign::NonNegative))
        }
    }
}

} // verus!
