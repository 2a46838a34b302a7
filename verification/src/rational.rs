//! Exact rational arithmetic over sign-and-magnitude fractions with 32-bit
//! parts.  The checked operations work in 64-bit intermediates, reduce the
//! result to lowest terms, and report an overflow instead of wrapping when a
//! reduced part still does not fit in 32 bits.

use crate::frac::gcd_spec;
use crate::frac::lemma_divides_bounds;
use crate::frac::lemma_gcd_divides;
use crate::frac::lemma_reduced_equiv;
use vstd::arithmetic::div_mod::lemma_div_nonincreasing;
use vstd::prelude::*;

verus! {

/// What can go wrong in the checked arithmetic.
#[derive(Debug, PartialEq, Eq, Clone, Copy)]
pub enum RationalError {
    NumeratorOverflow,
    DenominatorOverflow,
    DivideByZero,
}

/// The sign of a fraction; zero counts as non-negative.
#[derive(Debug, PartialEq, Eq, Clone, Copy)]
pub enum FractionSign {
    NonNegative,
    Negative,
}

/// A fraction: numerator, denominator and sign.  Values built by
/// [`Fraction::new`] and by the checked operations have a positive
/// denominator and are in lowest terms.
#[derive(Debug, PartialEq, Eq, Clone, Copy)]
pub struct Fraction {
    pub numer: u32,
    pub denom: u32,
    pub sign: FractionSign,
}

/// The product of two 32-bit magnitudes fits in 64 bits.
pub proof fn lemma_u32_mul_fits(a: int, b: int)
    requires
        0 <= a <= u32::MAX,
        0 <= b <= u32::MAX,
    ensures
        0 <= a * b <= 0xffff_fffe_0000_0001,
{
    assert(0 <= a * b <= 0xffff_ffff * 0xffff_ffff) by (nonlinear_arith)
        requires
            0 <= a <= 0xffff_ffff,
            0 <= b <= 0xffff_ffff,
    ;
}

/// The opposite sign.
pub open spec fn flip(s: FractionSign) -> FractionSign {
    if s is Negative {
        FractionSign::NonNegative
    } else {
        FractionSign::Negative
    }
}

/// The magnitude of the sum: over the common denominator, magnitudes of like
/// signs add and magnitudes of unlike signs cancel.
pub open spec fn sum_abs(a: Fraction, b: Fraction) -> nat {
    let p1 = a.numer as nat * b.denom as nat;
    let p2 = a.denom as nat * b.numer as nat;
    if a.sign == b.sign {
        p1 + p2
    } else if p1 >= p2 {
        (p1 - p2) as nat
    } else {
        (p2 - p1) as nat
    }
}

/// The sign of the sum: like signs keep their sign, unlike signs leave the
/// sign of the operand with the larger magnitude, and full cancellation
/// leaves a non-negative zero.
pub open spec fn sum_sign(a: Fraction, b: Fraction) -> FractionSign {
    let p1 = a.numer as nat * b.denom as nat;
    let p2 = a.denom as nat * b.numer as nat;
    if a.sign == b.sign {
        a.sign
    } else if p1 > p2 {
        a.sign
    } else if p2 > p1 {
        b.sign
    } else {
        FractionSign::NonNegative
    }
}

/// The sign of a product or quotient: non-negative exactly for like signs.
pub open spec fn prod_sign(a: Fraction, b: Fraction) -> FractionSign {
    if a.sign == b.sign {
        FractionSign::NonNegative
    } else {
        FractionSign::Negative
    }
}

/// `f` is `n_raw / d_raw` in lowest terms, carrying the sign `s`.
pub open spec fn reduced_of(n_raw: nat, d_raw: nat, s: FractionSign, f: Fraction) -> bool {
    let g = gcd_spec(n_raw, d_raw);
    f.numer as nat == n_raw / g && f.denom as nat == d_raw / g && f.sign == s
}

/// The overflow that reducing `n_raw / d_raw` to 32-bit parts runs into, if
/// any: the numerator is checked first.
pub open spec fn reduce_err(n_raw: nat, d_raw: nat) -> Option<RationalError> {
    let g = gcd_spec(n_raw, d_raw);
    if n_raw / g > u32::MAX {
        Some(RationalError::NumeratorOverflow)
    } else if d_raw / g > u32::MAX {
        Some(RationalError::DenominatorOverflow)
    } else {
        None
    }
}

impl Fraction {
    /// Validity: the denominator is positive.
    pub open spec fn wf(self) -> bool {
        self.denom >= 1
    }

    /// Builds the fraction `numer / denom` with the given sign, reduced to
    /// lowest terms; a zero denominator is rejected.  The reduced parts stand
    /// for the same ratio as the given ones.
    pub fn new(numer: u32, denom: u32, sign: FractionSign) -> (r: Option<Self>)
        ensures
            r is None <==> denom == 0,
            r matches Some(f) ==> {
                &&& f.numer as nat == numer as nat / gcd_spec(numer as nat, denom as nat)
                &&& f.denom as nat == denom as nat / gcd_spec(numer as nat, denom as nat)
                &&& f.sign == sign
                &&& f.wf()
                &&& f.numer as int * denom as int == numer as int * f.denom as int
            },
    {
        if denom == 0 {
            return None;
        }
        let g = gcd(numer as u64, denom as u64);
        proof {
            lemma_gcd_divides(numer as nat, denom as nat);
            lemma_divides_bounds(g as nat, denom as nat);
            lemma_reduced_equiv(numer as nat, denom as nat, g as nat);
            let kd = choose|k: nat| denom as nat == #[trigger] (k * g as nat);
            assert(denom as nat == kd * g as nat);
            assert(kd >= 1) by (nonlinear_arith)
                requires
                    denom as nat == kd * g as nat,
                    denom as nat > 0,
            ;
            lemma_div_nonincreasing(numer as int, g as int);
            lemma_div_nonincreasing(denom as int, g as int);
        }
        Some(Self { numer: ((numer as u64) / g) as u32, denom: ((denom as u64) / g) as u32, sign })
    }

    /// [`Fraction::new`] with a non-negative sign.
    pub fn with_non_negative(numer: u32, denom: u32) -> (r: Option<Self>)
        ensures
            r is None <==> denom == 0,
            r matches Some(f) ==> {
                &&& f.numer as nat == numer as nat / gcd_spec(numer as nat, denom as nat)
                &&& f.denom as nat == denom as nat / gcd_spec(numer as nat, denom as nat)
                &&& f.sign == FractionSign::NonNegative
                &&& f.wf()
                &&& f.numer as int * denom as int == numer as int * f.denom as int
            },
    {
        Self::new(numer, denom, FractionSign::NonNegative)
    }

    /// [`Fraction::new`] with a negative sign.
    pub fn with_negative(numer: u32, denom: u32) -> (r: Option<Self>)
        ensures
            r is None <==> denom == 0,
            r matches Some(f) ==> {
                &&& f.numer as nat == numer as nat / gcd_spec(numer as nat, denom as nat)
                &&& f.denom as nat == denom as nat / gcd_spec(numer as nat, denom as nat)
                &&& f.sign == FractionSign::Negative
                &&& f.wf()
                &&& f.numer as int * denom as int == numer as int * f.denom as int
            },
    {
        Self::new(numer, denom, FractionSign::Negative)
    }

    /// The numerator's magnitude.
    pub fn numer(&self) -> (r: u32)
        ensures
            r == self.numer,
    {
        self.numer
    }

    /// The denominator.
    pub fn denom(&self) -> (r: u32)
        ensures
            r == self.denom,
    {
        self.denom
    }

    /// The sign.
    pub fn sign(&self) -> (r: FractionSign)
        ensures
            r == self.sign,
    {
        self.sign
    }

    /// Reduces `n_raw / d_raw` to lowest terms and packs it into 32-bit
    /// parts, reporting which part overflowed when one does.
    fn reduce(n_raw: u64, d_raw: u64, s: FractionSign) -> (r: Result<Self, RationalError>)
        requires
            d_raw >= 1,
        ensures
            r is Ok <==> reduce_err(n_raw as nat, d_raw as nat) is None,
            r matches Ok(f) ==> f.wf() && reduced_of(n_raw as nat, d_raw as nat, s, f),
            r matches Err(e) ==> Some(e) == reduce_err(n_raw as nat, d_raw as nat),
    {
        let g = gcd(n_raw, d_raw);
        proof {
            lemma_gcd_divides(n_raw as nat, d_raw as nat);
            lemma_divides_bounds(g as nat, d_raw as nat);
            lemma_reduced_equiv(n_raw as nat, d_raw as nat, g as nat);
            let kd = choose|k: nat| d_raw as nat == #[trigger] (k * g as nat);
            assert(d_raw as nat == kd * g as nat);
            assert(kd >= 1) by (nonlinear_arith)
                requires
                    d_raw as nat == kd * g as nat,
                    d_raw as nat > 0,
            ;
        }
        let n = n_raw / g;
        if n > u32::MAX as u64 {
            return Err(RationalError::NumeratorOverflow);
        }
        let d = d_raw / g;
        if d > u32::MAX as u64 {
            return Err(RationalError::DenominatorOverflow);
        }
        Ok(Self { numer: n as u32, denom: d as u32, sign: s })
    }

    /// Checked addition: the exact sum, reduced to lowest terms, or the
    /// overflow it runs into.  Like signs add magnitudes over the common
    /// denominator; unlike signs cancel, and the operand with the larger
    /// magnitude leaves its sign.
    pub fn checked_add(self, rhs: Self) -> (r: Result<Self, RationalError>)
        requires
            self.wf(),
            rhs.wf(),
            self.sign == rhs.sign ==> self.numer as int * rhs.denom as int + self.denom as int
                * rhs.numer as int <= u64::MAX,
        ensures
            r is Ok <==> reduce_err(sum_abs(self, rhs), self.denom as nat * rhs.denom as nat)
                is None,
            r matches Ok(f) ==> f.wf() && reduced_of(
                sum_abs(self, rhs),
                self.denom as nat * rhs.denom as nat,
                sum_sign(self, rhs),
                f,
            ),
            r matches Err(e) ==> Some(e) == reduce_err(
                sum_abs(self, rhs),
                self.denom as nat * rhs.denom as nat,
            ),
    {
        proof {
            lemma_u32_mul_fits(self.denom as int, rhs.denom as int);
            lemma_u32_mul_fits(self.numer as int, rhs.denom as int);
            lemma_u32_mul_fits(self.denom as int, rhs.numer as int);
        }
        let d_raw = self.denom as u64 * rhs.denom as u64;
        proof {
            assert(d_raw >= 1) by (nonlinear_arith)
                requires
                    d_raw == self.denom as u64 * rhs.denom as u64,
                    self.denom >= 1,
                    rhs.denom >= 1,
            ;
        }
        let p1 = self.numer as u64 * rhs.denom as u64;
        let p2 = self.denom as u64 * rhs.numer as u64;
        let same = match (self.sign, rhs.sign) {
            (FractionSign::NonNegative, FractionSign::NonNegative) => true,
            (FractionSign::Negative, FractionSign::Negative) => true,
            _ => false,
        };
        if same {
            Self::reduce(p1 + p2, d_raw, self.sign)
        } else if p1 > p2 {
            Self::reduce(p1 - p2, d_raw, self.sign)
        } else if p2 > p1 {
            Self::reduce(p2 - p1, d_raw, rhs.sign)
        } else {
            Self::reduce(0, d_raw, FractionSign::NonNegative)
        }
    }

    /// Checked subtraction: addition of the negated right operand.
    pub fn checked_sub(self, rhs: Self) -> (r: Result<Self, RationalError>)
        requires
            self.wf(),
            rhs.wf(),
            self.sign != rhs.sign ==> self.numer as int * rhs.denom as int + self.denom as int
                * rhs.numer as int <= u64::MAX,
        ensures
            r is Ok <==> reduce_err(
                sum_abs(self, negated(rhs)),
                self.denom as nat * rhs.denom as nat,
            ) is None,
            r matches Ok(f) ==> f.wf() && reduced_of(
                sum_abs(self, negated(rhs)),
                self.denom as nat * rhs.denom as nat,
                sum_sign(self, negated(rhs)),
                f,
            ),
            r matches Err(e) ==> Some(e) == reduce_err(
                sum_abs(self, negated(rhs)),
                self.denom as nat * rhs.denom as nat,
            ),
    {
        let s = match rhs.sign {
            FractionSign::NonNegative => FractionSign::Negative,
            FractionSign::Negative => FractionSign::NonNegative,
        };
        let neg = Self { numer: rhs.numer, denom: rhs.denom, sign: s };
        self.checked_add(neg)
    }

    /// Checked multiplication: magnitudes multiply, like signs give a
    /// non-negative result, and the product is reduced to lowest terms.
    pub fn checked_mul(self, rhs: Self) -> (r: Result<Self, RationalError>)
        requires
            self.wf(),
            rhs.wf(),
        ensures
            r is Ok <==> reduce_err(
                self.numer as nat * rhs.numer as nat,
                self.denom as nat * rhs.denom as nat,
            ) is None,
            r matches Ok(f) ==> f.wf() && reduced_of(
                self.numer as nat * rhs.numer as nat,
                self.denom as nat * rhs.denom as nat,
                prod_sign(self, rhs),
                f,
            ),
            r matches Err(e) ==> Some(e) == reduce_err(
                self.numer as nat * rhs.numer as nat,
                self.denom as nat * rhs.denom as nat,
            ),
    {
        proof {
            lemma_u32_mul_fits(self.denom as int, rhs.denom as int);
            lemma_u32_mul_fits(self.numer as int, rhs.numer as int);
        }
        let d_raw = self.denom as u64 * rhs.denom as u64;
        proof {
            assert(d_raw >= 1) by (nonlinear_arith)
                requires
                    d_raw == self.denom as u64 * rhs.denom as u64,
                    self.denom >= 1,
                    rhs.denom >= 1,
            ;
        }
        let n_raw = self.numer as u64 * rhs.numer as u64;
        let same = match (self.sign, rhs.sign) {
            (FractionSign::NonNegative, FractionSign::NonNegative) => true,
            (FractionSign::Negative, FractionSign::Negative) => true,
            _ => false,
        };
        let s = if same {
            FractionSign::NonNegative
        } else {
            FractionSign::Negative
        };
        Self::reduce(n_raw, d_raw, s)
    }

    /// Checked division by the stored reciprocal rule: a divisor whose
    /// numerator is zero is rejected; otherwise the divisor's denominator is
    /// set over the dividend's own numerator, with the dividend's own sign,
    /// and that fraction is multiplied onto the dividend.  A zero dividend is
    /// therefore rejected as well (the built fraction would have a zero
    /// denominator), the divisor's numerator never enters the result, and
    /// because the two factors always carry the same sign the result is
    /// always non-negative.
    pub fn checked_div(self, rhs: Self) -> (r: Result<Self, RationalError>)
        requires
            self.wf(),
            rhs.wf(),
        ensures
            r == Err::<Self, RationalError>(RationalError::DivideByZero) <==> rhs.numer == 0
                || self.numer == 0,
            rhs.numer != 0 && self.numer != 0 ==> ({
                let g = gcd_spec(rhs.denom as nat, self.numer as nat);
                let rn = rhs.denom as nat / g;
                let rd = self.numer as nat / g;
                &&& (r is Ok <==> reduce_err(
                    self.numer as nat * rn,
                    self.denom as nat * rd,
                ) is None)
                &&& (r matches Ok(f) ==> f.wf() && reduced_of(
                    self.numer as nat * rn,
                    self.denom as nat * rd,
                    FractionSign::NonNegative,
                    f,
                ))
                &&& (r matches Err(e) ==> Some(e) == reduce_err(
                    self.numer as nat * rn,
                    self.denom as nat * rd,
                ))
            }),
    {
        if rhs.numer == 0 {
            return Err(RationalError::DivideByZero);
        }
        if self.numer == 0 {
            return Err(RationalError::DivideByZero);
        }
        let recip = Self::new(rhs.denom, self.numer, self.sign).unwrap();
        let r = self.checked_mul(recip);
        proof {
            assert(prod_sign(self, recip) == FractionSign::NonNegative);
            assert(r matches Err(e) ==> e != RationalError::DivideByZero);
        }
        r
    }
}

/// The right operand with its sign flipped.
pub open spec fn negated(f: Fraction) -> Fraction {
    Fraction { numer: f.numer, denom: f.denom, sign: flip(f.sign) }
}

impl From<u32> for Fraction {
    /// A 32-bit unsigned value is the non-negative fraction over 1.
    fn from(value: u32) -> (r: Self) {
        proof {
            assert(gcd_spec(value as nat, 1) == gcd_spec(1, value as nat % 1));
            assert(value as nat % 1 == 0);
            assert(gcd_spec(1, 0) == 1);
        }
        Self::new(value, 1, FractionSign::NonNegative).unwrap()
    }
}

impl vstd::std_specs::convert::FromSpecImpl<u32> for Fraction {
    open spec fn obeys_from_spec() -> bool {
        true
    }

    open spec fn from_spec(v: u32) -> Fraction {
        Fraction { numer: v, denom: 1, sign: FractionSign::NonNegative }
    }
}

impl PartialOrd for Fraction {
    /// The order the comparison implements: any non-negative fraction sits
    /// above any negative one (so a negative zero sits below zero), and
    /// fractions of like sign compare by cross-multiplied magnitudes.
    fn partial_cmp(&self, other: &Self) -> (r: Option<core::cmp::Ordering>) {
        proof {
            lemma_u32_mul_fits(self.numer as int, other.denom as int);
            lemma_u32_mul_fits(other.numer as int, self.denom as int);
        }
        let p1 = self.numer as u64 * other.denom as u64;
        let p2 = other.numer as u64 * self.denom as u64;
        match (self.sign, other.sign) {
            (FractionSign::NonNegative, FractionSign::Negative) => Some(
                core::cmp::Ordering::Greater,
            ),
            (FractionSign::Negative, FractionSign::NonNegative) => Some(core::cmp::Ordering::Less),
            (FractionSign::NonNegative, FractionSign::NonNegative) => {
                if p1 < p2 {
                    Some(core::cmp::Ordering::Less)
                } else if p1 == p2 {
                    Some(core::cmp::Ordering::Equal)
                } else {
                    Some(core::cmp::Ordering::Greater)
                }
            },
            (FractionSign::Negative, FractionSign::Negative) => {
                if p2 < p1 {
                    Some(core::cmp::Ordering::Less)
                } else if p1 == p2 {
                    Some(core::cmp::Ordering::Equal)
                } else {
                    Some(core::cmp::Ordering::Greater)
                }
            },
        }
    }
}

impl vstd::std_specs::cmp::PartialOrdSpecImpl for Fraction {
    open spec fn obeys_partial_cmp_spec() -> bool {
        true
    }

    open spec fn partial_cmp_spec(&self, other: &Self) -> Option<core::cmp::Ordering> {
        let p1 = self.numer as nat * other.denom as nat;
        let p2 = other.numer as nat * self.denom as nat;
        match (self.sign, other.sign) {
            (FractionSign::NonNegative, FractionSign::Negative) => Some(
                core::cmp::Ordering::Greater,
            ),
            (FractionSign::Negative, FractionSign::NonNegative) => Some(core::cmp::Ordering::Less),
            (FractionSign::NonNegative, FractionSign::NonNegative) => {
                if p1 < p2 {
                    Some(core::cmp::Ordering::Less)
                } else if p1 == p2 {
                    Some(core::cmp::Ordering::Equal)
                } else {
                    Some(core::cmp::Ordering::Greater)
                }
            },
            (FractionSign::Negative, FractionSign::Negative) => {
                if p2 < p1 {
                    Some(core::cmp::Ordering::Less)
                } else if p1 == p2 {
                    Some(core::cmp::Ordering::Equal)
                } else {
                    Some(core::cmp::Ordering::Greater)
                }
            },
        }
    }
}

/// The greatest common divisor by Euclid's remainder loop, over the 64-bit
/// intermediates of the checked operations.
pub fn gcd(a: u64, b: u64) -> (g: u64)
    ensures
        g as nat == gcd_spec(a as nat, b as nat),
{
    let mut x = a;
    let mut y = b;
    while y != 0
        invariant
            gcd_spec(x as nat, y as nat) == gcd_spec(a as nat, b as nat),
        decreases y,
    {
        let r = x % y;
        proof {
            assert(gcd_spec(y as nat, r as nat) == gcd_spec(x as nat, y as nat));
        }
        x = y;
        y = r;
    }
    x
}

} // verus!
