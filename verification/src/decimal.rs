//! Fixed-point ratios with 18 fractional digits, computed by `cosmwasm_std::Decimal256`.

use crate::error::Error;
use crate::wide::{fits, U256};
use cosmwasm_std::{CheckedFromRatioError, Decimal256, Uint256};
use vstd::prelude::*;

verus! {

/// The number of atomic units in `1.0`, `10^18`.
pub open spec fn unit() -> nat {
    1_000_000_000_000_000_000
}

/// The atomic units of the ratio of `n` to `d`, rounded down.
pub open spec fn ratio_of(n: nat, d: nat) -> nat {
    n * unit() / d
}

/// The atomic units of the square root that `Decimal256::sqrt` returns for a
/// ratio of `atomics` atomic units.
pub uninterp spec fn decimal_sqrt(atomics: nat) -> nat;

/// A non-negative ratio, held as a count of atomic units of `10^-18`.
#[derive(Clone, Copy, Debug, PartialEq, Eq, PartialOrd, Ord)]
pub struct Decimal {
    pub atomics: U256,
}

impl View for Decimal {
    type V = nat;

    /// The number of atomic units.
    open spec fn view(&self) -> nat {
        self.atomics@
    }
}

impl Decimal {
    /// `Decimal256::checked_from_ratio`: `numerator / denominator` rounded down
    /// to a whole number of atomic units. A zero denominator is refused, and
    /// so is a ratio whose atomic units need more than 256 bits.
    #[verifier::external_body]
    pub(crate) fn checked_from_ratio(numerator: U256, denominator: U256) -> (r: Result<
        Decimal,
        Error,
    >)
        ensures
            denominator@ == 0 ==> r is Err && r->Err_0 == Error::DivideByZero,
            denominator@ != 0 && !fits(ratio_of(numerator@, denominator@)) ==> r is Err
                && r->Err_0 == Error::Overflow,
            denominator@ != 0 && fits(ratio_of(numerator@, denominator@)) ==> r is Ok
                && r->Ok_0@ == ratio_of(numerator@, denominator@),
    {
        let n = Uint256::from_be_bytes(numerator.bytes);
        let d = Uint256::from_be_bytes(denominator.bytes);
        match Decimal256::checked_from_ratio(n, d) {
            Ok(v) => Ok(Decimal { atomics: U256 { bytes: v.atomics().to_be_bytes() } }),
            Err(CheckedFromRatioError::DivideByZero) => Err(Error::DivideByZero),
            Err(CheckedFromRatioError::Overflow) => Err(Error::Overflow),
        }
    }

    /// `Decimal256::checked_add`: the sum, or `None` when its atomic units
    /// need more than 256 bits.
    #[verifier::external_body]
    pub(crate) fn checked_add(self, rhs: Decimal) -> (r: Option<Decimal>)
        ensures
            r is Some <==> fits(self@ + rhs@),
            r is Some ==> r->0@ == self@ + rhs@,
    {
        let a = Decimal256::new(Uint256::from_be_bytes(self.atomics.bytes));
        let b = Decimal256::new(Uint256::from_be_bytes(rhs.atomics.bytes));
        match a.checked_add(b) {
            Ok(v) => Some(Decimal { atomics: U256 { bytes: v.atomics().to_be_bytes() } }),
            Err(_) => None,
        }
    }

    /// `Decimal256::checked_sub`: the difference, or `None` when `rhs` is the larger.
    #[verifier::external_body]
    pub(crate) fn checked_sub(self, rhs: Decimal) -> (r: Option<Decimal>)
        ensures
            r is Some <==> rhs@ <= self@,
            r is Some ==> r->0@ == self@ - rhs@,
    {
        let a = Decimal256::new(Uint256::from_be_bytes(self.atomics.bytes));
        let b = Decimal256::new(Uint256::from_be_bytes(rhs.atomics.bytes));
        match a.checked_sub(b) {
            Ok(v) => Some(Decimal { atomics: U256 { bytes: v.atomics().to_be_bytes() } }),
            Err(_) => None,
        }
    }

    /// `Decimal256::checked_mul`: the product rounded down to a whole number
    /// of atomic units, or `None` when those need more than 256 bits.
    #[verifier::external_body]
    pub(crate) fn checked_mul(self, rhs: Decimal) -> (r: Option<Decimal>)
        ensures
            r is Some <==> fits(self@ * rhs@ / unit()),
            r is Some ==> r->0@ == self@ * rhs@ / unit(),
    {
        let a = Decimal256::new(Uint256::from_be_bytes(self.atomics.bytes));
        let b = Decimal256::new(Uint256::from_be_bytes(rhs.atomics.bytes));
        match a.checked_mul(b) {
            Ok(v) => Some(Decimal { atomics: U256 { bytes: v.atomics().to_be_bytes() } }),
            Err(_) => None,
        }
    }

    /// `Decimal256::checked_div`: the quotient rounded down to a whole number
    /// of atomic units. A zero divisor is refused, and so is a quotient whose
    /// atomic units need more than 256 bits.
    #[verifier::external_body]
    pub(crate) fn checked_div(self, rhs: Decimal) -> (r: Result<Decimal, Error>)
        ensures
            rhs@ == 0 ==> r is Err && r->Err_0 == Error::DivideByZero,
            rhs@ != 0 && !fits(ratio_of(self@, rhs@)) ==> r is Err && r->Err_0 == Error::Overflow,
            rhs@ != 0 && fits(ratio_of(self@, rhs@)) ==> r is Ok && r->Ok_0@ == ratio_of(
                self@,
                rhs@,
            ),
    {
        let a = Decimal256::new(Uint256::from_be_bytes(self.atomics.bytes));
        let b = Decimal256::new(Uint256::from_be_bytes(rhs.atomics.bytes));
        match a.checked_div(b) {
            Ok(v) => Ok(Decimal { atomics: U256 { bytes: v.atomics().to_be_bytes() } }),
            Err(CheckedFromRatioError::DivideByZero) => Err(Error::DivideByZero),
            Err(CheckedFromRatioError::Overflow) => Err(Error::Overflow),
        }
    }

    /// `Decimal256::sqrt`: the approximate square root.
    #[verifier::external_body]
    pub(crate) fn sqrt(self) -> (r: Decimal)
        ensures
            r@ == decimal_sqrt(self@),
    {
        let a = Decimal256::new(Uint256::from_be_bytes(self.atomics.bytes));
        Decimal { atomics: U256 { bytes: a.sqrt().atomics().to_be_bytes() } }
    }

    /// `Decimal256::to_uint_floor`: the whole units, the fraction dropped.
    #[verifier::external_body]
    pub(crate) fn to_uint_floor(self) -> (r: U256)
        ensures
            r@ == self@ / unit(),
    {
        let a = Decimal256::new(Uint256::from_be_bytes(self.atomics.bytes));
        U256 { bytes: a.to_uint_floor().to_be_bytes() }
    }

    /// `Decimal256::to_uint_ceil`: the whole units, any fraction counted as one more.
    #[verifier::external_body]
    pub(crate) fn to_uint_ceil(self) -> (r: U256)
        ensures
            r@ == ceil_units(self@),
    {
        let a = Decimal256::new(Uint256::from_be_bytes(self.atomics.bytes));
        U256 { bytes: a.to_uint_ceil().to_be_bytes() }
    }

    /// The ratio with the given number of atomic units.
    pub fn new(atomics: U256) -> (r: Decimal)
        ensures
            r@ == atomics@,
    {
        Decimal { atomics }
    }

    /// `0.0`.
    pub fn zero() -> (r: Decimal)
        ensures
            r@ == 0,
    {
        Decimal { atomics: U256::from_u128(0) }
    }

    /// `1.0`.
    pub fn one() -> (r: Decimal)
        ensures
            r@ == unit(),
    {
        Decimal { atomics: U256::from_u128(1_000_000_000_000_000_000) }
    }

    /// `x` as a ratio, or `None` when `x * 10^18` needs more than 256 bits.
    pub fn from_uint(x: U256) -> (r: Option<Decimal>)
        ensures
            r is Some <==> fits(x@ * unit()),
            r is Some ==> r->0@ == x@ * unit(),
    {
        match Decimal::checked_from_ratio(x, U256::from_u128(1)) {
            Ok(d) => Some(d),
            Err(_) => None,
        }
    }

    /// `x` times the ratio, exact to the atomic unit. `None` when `x` as a
    /// ratio or the product needs more than 256 bits of atomic units.
    pub fn scale(self, x: U256) -> (r: Option<Decimal>)
        ensures
            r is Some <==> fits(x@ * unit()) && fits(x@ * self@),
            r is Some ==> r->0@ == x@ * self@,
    {
        match Decimal::from_uint(x) {
            None => None,
            Some(whole) => {
                proof {
                    lemma_scaled_product(x@, self@);
                }
                whole.checked_mul(self)
            },
        }
    }
}

/// The whole units of `atomics` atomic units, any fraction counted as one more.
pub open spec fn ceil_units(atomics: nat) -> nat {
    if atomics == 0 {
        0
    } else {
        1 + (atomics - 1) as nat / unit()
    }
}

/// `x` whole units times `r` atomic units are `x * r` atomic units.
pub proof fn lemma_scaled_product(x: nat, r: nat)
    ensures
        (x * unit()) * r / unit() == x * r,
{
    assert((x * unit()) * r == (x * r) * unit()) by (nonlinear_arith);
    vstd::arithmetic::div_mod::lemma_div_multiples_vanish((x * r) as int, unit() as int);
}

} // verus!
