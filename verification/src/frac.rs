//! Fractions over unsigned 32-bit parts with an explicit sign, kept in
//! lowest terms: the constructor divides numerator and denominator by their
//! greatest common divisor and rejects a zero denominator.

use vstd::arithmetic::div_mod::lemma_div_by_multiple;
use vstd::arithmetic::div_mod::lemma_fundamental_div_mod;
use vstd::arithmetic::div_mod::lemma_div_pos_is_pos;
use vstd::prelude::*;

verus! {

/// Euclid's greatest common divisor, with `gcd_spec(a, 0) == a`, so in
/// particular `gcd_spec(0, 0) == 0`.
pub open spec fn gcd_spec(a: nat, b: nat) -> nat
    decreases b,
{
    if b == 0 {
        a
    } else {
        gcd_spec(b, a % b)
    }
}

/// `d` divides `n`.
pub open spec fn divides(d: nat, n: nat) -> bool {
    exists|k: nat| n == #[trigger] (k * d)
}

/// The greatest common divisor divides both of its arguments.
pub proof fn lemma_gcd_divides(a: nat, b: nat)
    ensures
        divides(gcd_spec(a, b), a),
        divides(gcd_spec(a, b), b),
    decreases b,
{
    if b == 0 {
        assert(a == 1 * a);
        assert(b == 0 * a);
    } else {
        lemma_gcd_divides(b, a % b);
        let g = gcd_spec(a, b);
        let k1 = choose|k: nat| b == #[trigger] (k * g);
        let k2 = choose|k: nat| a % b == #[trigger] (k * g);
        lemma_fundamental_div_mod(a as int, b as int);
        lemma_div_pos_is_pos(a as int, b as int);
        let q = a as int / b as int;
        assert(a as int == b as int * q + (a % b) as int);
        assert(a as int == (k1 * g) as int * q + (k2 * g) as int);
        assert((k1 * g) as int * q + (k2 * g) as int == (k1 as int * q + k2 as int) * g as int)
            by (nonlinear_arith);
        let k = (k1 as int * q + k2) as nat;
        assert(k1 as int * q >= 0) by (nonlinear_arith)
            requires
                q >= 0,
        ;
        assert(a == k * g);
    }
}

/// A divisor of a positive number lies between 1 and that number.
pub proof fn lemma_divides_bounds(d: nat, n: nat)
    requires
        divides(d, n),
        n > 0,
    ensures
        1 <= d <= n,
{
    let k = choose|k: nat| n == #[trigger] (k * d);
    assert(k * d > 0);
    assert(d >= 1 && k >= 1) by (nonlinear_arith)
        requires
            k * d > 0,
    ;
    assert(k * d >= d) by (nonlinear_arith)
        requires
            k >= 1,
    ;
}

/// Dividing two multiples of `g` by `g` keeps their cross products equal:
/// the reduced fraction stands for the same ratio.
pub proof fn lemma_reduced_equiv(n: nat, d: nat, g: nat)
    requires
        divides(g, n),
        divides(g, d),
        g > 0,
    ensures
        (n / g) * d == n * (d / g),
        n / g == (choose|k: nat| n == #[trigger] (k * g)),
        d / g == (choose|k: nat| d == #[trigger] (k * g)),
{
    let kn = choose|k: nat| n == #[trigger] (k * g);
    let kd = choose|k: nat| d == #[trigger] (k * g);
    lemma_div_by_multiple(kn as int, g as int);
    lemma_div_by_multiple(kd as int, g as int);
    assert(n as int / g as int == kn as int);
    assert(d as int / g as int == kd as int);
    assert(kn * (kd * g) == (kn * g) * kd) by (nonlinear_arith);
}

/// A fraction: numerator, denominator and sign.  Values built by
/// [`Fraction::new`] have a positive denominator and are in lowest terms.
#[derive(Debug, PartialEq, Eq)]
pub struct Fraction {
    pub numer: u32,
    pub denom: u32,
    pub sign: FractionSign,
}

/// The sign of a fraction; zero counts as non-negative.
#[derive(Debug, PartialEq, Eq)]
pub enum FractionSign {
    NonNegative,
    Negative,
}

impl Fraction {
    /// Builds the fraction `numer / denom` with the given sign, reduced to
    /// lowest terms; a zero denominator is rejected.  The reduced parts stand
    /// for the same ratio as the given ones.
    pub fn new(numer: u32, denom: u32, sign: FractionSign) -> (r: Option<Self>)
        ensures
            r is None <==> denom == 0,
            r matches Some(f) ==> {
                &&& f.numer as nat == numer as nat / gcd_spec(numer as nat, denom as nat)
                &&& f.denom as nat == denom as nat / gcd_spec(numer as nat, denom as nat)
                &&& f.sign == sign
                &&& f.denom >= 1
                &&& f.numer as int * denom as int == numer as int * f.denom as int
            },
    {
        if denom == 0 {
            return None;
        }
        let g = gcd(numer, denom);
        proof {
            lemma_gcd_divides(numer as nat, denom as nat);
            lemma_divides_bounds(g as nat, denom as nat);
            lemma_reduced_equiv(numer as nat, denom as nat, g as nat);
            let kd = choose|k: nat| denom as nat == #[trigger] (k * g as nat);
            assert(denom as nat == kd * g as nat);
            assert(kd >= 1) by (nonlinear_arith)
                requires
                    denom as nat == kd * g as nat,
                    denom as nat > 0,
            ;
        }
        Some(Self { numer: numer / g, denom: denom / g, sign })
    }

    /// [`Fraction::new`] with a non-negative sign.
    pub fn with_non_negative(numer: u32, denom: u32) -> (r: Option<Self>)
        ensures
            r is None <==> denom == 0,
            r matches Some(f) ==> {
                &&& f.numer as nat == numer as nat / gcd_spec(numer as nat, denom as nat)
                &&& f.denom as nat == denom as nat / gcd_spec(numer as nat, denom as nat)
                &&& f.sign == FractionSign::NonNegative
                &&& f.denom >= 1
                &&& f.numer as int * denom as int == numer as int * f.denom as int
            },
    {
        Self::new(numer, denom, FractionSign::NonNegative)
    }

    /// [`Fraction::new`] with a negative sign.
    pub fn with_negative(numer: u32, denom: u32) -> (r: Option<Self>)
        ensures
            r is None <==> denom == 0,
            r matches Some(f) ==> {
                &&& f.numer as nat == numer as nat / gcd_spec(numer as nat, denom as nat)
                &&& f.denom as nat == denom as nat / gcd_spec(numer as nat, denom as nat)
                &&& f.sign == FractionSign::Negative
                &&& f.denom >= 1
                &&& f.numer as int * denom as int == numer as int * f.denom as int
            },
    {
        Self::new(numer, denom, FractionSign::Negative)
    }
}

/// The greatest common divisor by Euclid's remainder loop.
pub fn gcd(a: u32, b: u32) -> (g: u32)
    ensures
        g as nat == gcd_spec(a as nat, b as nat),
{
    let mut x = a;
    let mut y = b;
    while y != 0
        invariant
            gcd_spec(x as nat, y as nat) == gcd_spec(a as nat, b as nat),
        decreases y,
    {
        let r = x % y;
        proof {
            assert(gcd_spec(y as nat, r as nat) == gcd_spec(x as nat, y as nat));
        }
        x = y;
        y = r;
    }
    x
}

} // verus!
