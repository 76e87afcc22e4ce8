//! The units of account: collateral, outcome tokens and liquidity shares,
//! and the ids of markets and outcomes.

use crate::decimal::{ceil_units, ratio_of, unit, Decimal};
use crate::error::Error;
use crate::wide::{fits, U256};
use vstd::prelude::*;

verus! {

/// A point in time, in nanoseconds since the epoch.
#[derive(Clone, Copy, Debug, PartialEq, Eq, Structural)]
pub struct Timestamp(pub u64);

/// An amount of the asset that backs a market.
#[derive(Clone, Copy, Debug, PartialEq, Eq, PartialOrd, Ord)]
pub struct Collateral(pub U256);

/// Number of outcome tokens.
///
/// Each outcome token entitles the holder to 1 unit of winnings if its result succeeds.
#[derive(Clone, Copy, Debug, PartialEq, Eq, PartialOrd, Ord)]
pub struct Token(pub U256);

/// A number of shares in a market's liquidity pool.
#[derive(Clone, Copy, Debug, PartialEq, Eq, PartialOrd, Ord)]
pub struct LpShare(pub U256);

/// Identifier of a market. Markets are numbered from 1.
#[derive(Clone, Copy, Debug, PartialEq, Eq, Structural)]
pub struct MarketId(pub u32);

/// Identifier of the outcome for a market.
///
/// Outcomes are 0-indexed and restricted to a `u8`.
#[derive(Clone, Copy, Debug, PartialEq, Eq, Structural)]
pub struct OutcomeId(pub u8);

impl View for Collateral {
    type V = nat;

    open spec fn view(&self) -> nat {
        self.0@
    }
}

impl View for Token {
    type V = nat;

    open spec fn view(&self) -> nat {
        self.0@
    }
}

impl View for LpShare {
    type V = nat;

    open spec fn view(&self) -> nat {
        self.0@
    }
}

/// `x * ratio` in whole units, rounded down, as far as it can be computed:
/// both `x` as a ratio and the product must fit 256 bits of atomic units.
pub open spec fn scaled_fits(x: nat, ratio: nat) -> bool {
    fits(x * unit()) && fits(x * ratio)
}

/// `x` times a ratio of `ratio` atomic units, rounded down to whole units.
pub open spec fn scaled_floor(x: nat, ratio: nat) -> nat {
    x * ratio / unit()
}

/// `x` times a ratio of `ratio` atomic units, rounded up to whole units.
pub open spec fn scaled_ceil(x: nat, ratio: nat) -> nat {
    ceil_units(x * ratio)
}

/// `x * ratio`, rounded down.
pub fn mul_floor(x: U256, ratio: Decimal) -> (r: Result<U256, Error>)
    ensures
        r is Ok <==> scaled_fits(x@, ratio@),
        r is Ok ==> r->Ok_0@ == scaled_floor(x@, ratio@),
        r is Err ==> r->Err_0 == Error::Overflow,
{
    match ratio.scale(x) {
        Some(d) => Ok(d.to_uint_floor()),
        None => Err(Error::Overflow),
    }
}

/// `x * ratio`, rounded up.
pub fn mul_ceil(x: U256, ratio: Decimal) -> (r: Result<U256, Error>)
    ensures
        r is Ok <==> scaled_fits(x@, ratio@),
        r is Ok ==> r->Ok_0@ == scaled_ceil(x@, ratio@),
        r is Err ==> r->Err_0 == Error::Overflow,
{
    match ratio.scale(x) {
        Some(d) => Ok(d.to_uint_ceil()),
        None => Err(Error::Overflow),
    }
}

impl Collateral {
    pub fn zero() -> (r: Collateral)
        ensures
            r@ == 0,
    {
        Collateral(U256::zero())
    }

    pub fn is_zero(&self) -> (r: bool)
        ensures
            r == (self@ == 0),
    {
        self.0.is_zero()
    }

    /// The sum; `Overflow` when it needs more than 256 bits.
    pub fn checked_add(self, rhs: Collateral) -> (r: Result<Collateral, Error>)
        ensures
            r is Ok <==> fits(self@ + rhs@),
            r is Ok ==> r->Ok_0@ == self@ + rhs@,
            r is Err ==> r->Err_0 == Error::Overflow,
    {
        match self.0.checked_add(rhs.0) {
            Some(v) => Ok(Collateral(v)),
            None => Err(Error::Overflow),
        }
    }

    /// The difference; `Underflow` when `rhs` is the larger.
    pub fn checked_sub(self, rhs: Collateral) -> (r: Result<Collateral, Error>)
        ensures
            r is Ok <==> rhs@ <= self@,
            r is Ok ==> r->Ok_0@ == self@ - rhs@,
            r is Err ==> r->Err_0 == Error::Underflow,
    {
        match self.0.checked_sub(rhs.0) {
            Some(v) => Ok(Collateral(v)),
            None => Err(Error::Underflow),
        }
    }

    /// The amount times `ratio`, rounded down: what is paid out or minted.
    pub fn mul_floor(self, ratio: Decimal) -> (r: Result<Collateral, Error>)
        ensures
            r is Ok <==> scaled_fits(self@, ratio@),
            r is Ok ==> r->Ok_0@ == scaled_floor(self@, ratio@),
            r is Err ==> r->Err_0 == Error::Overflow,
    {
        match self::mul_floor(self.0, ratio) {
            Ok(v) => Ok(Collateral(v)),
            Err(e) => Err(e),
        }
    }

    /// The amount times `ratio`, rounded up: what is owed as a fee.
    pub fn mul_ceil(self, ratio: Decimal) -> (r: Result<Collateral, Error>)
        ensures
            r is Ok <==> scaled_fits(self@, ratio@),
            r is Ok ==> r->Ok_0@ == scaled_ceil(self@, ratio@),
            r is Err ==> r->Err_0 == Error::Overflow,
    {
        match self::mul_ceil(self.0, ratio) {
            Ok(v) => Ok(Collateral(v)),
            Err(e) => Err(e),
        }
    }

    /// The ratio of the amount to `rhs`, rounded down to the atomic unit.
    pub fn ratio(self, rhs: Collateral) -> (r: Result<Decimal, Error>)
        ensures
            rhs@ == 0 ==> r is Err && r->Err_0 == Error::DivideByZero,
            rhs@ != 0 && !fits(ratio_of(self@, rhs@)) ==> r is Err && r->Err_0 == Error::Overflow,
            rhs@ != 0 && fits(ratio_of(self@, rhs@)) ==> r is Ok && r->Ok_0@ == ratio_of(
                self@,
                rhs@,
            ),
    {
        Decimal::checked_from_ratio(self.0, rhs.0)
    }
}

impl Token {
    pub fn zero() -> (r: Token)
        ensures
            r@ == 0,
    {
        Token(U256::zero())
    }

    pub fn is_zero(&self) -> (r: bool)
        ensures
            r == (self@ == 0),
    {
        self.0.is_zero()
    }

    /// The sum; `Overflow` when it needs more than 256 bits.
    pub fn checked_add(self, rhs: Token) -> (r: Result<Token, Error>)
        ensures
            r is Ok <==> fits(self@ + rhs@),
            r is Ok ==> r->Ok_0@ == self@ + rhs@,
            r is Err ==> r->Err_0 == Error::Overflow,
    {
        match self.0.checked_add(rhs.0) {
            Some(v) => Ok(Token(v)),
            None => Err(Error::Overflow),
        }
    }

    /// The difference; `Underflow` when `rhs` is the larger.
    pub fn checked_sub(self, rhs: Token) -> (r: Result<Token, Error>)
        ensures
            r is Ok <==> rhs@ <= self@,
            r is Ok ==> r->Ok_0@ == self@ - rhs@,
            r is Err ==> r->Err_0 == Error::Underflow,
    {
        match self.0.checked_sub(rhs.0) {
            Some(v) => Ok(Token(v)),
            None => Err(Error::Underflow),
        }
    }

    /// The number of tokens times `ratio`, rounded down.
    pub fn mul_floor(self, ratio: Decimal) -> (r: Result<Token, Error>)
        ensures
            r is Ok <==> scaled_fits(self@, ratio@),
            r is Ok ==> r->Ok_0@ == scaled_floor(self@, ratio@),
            r is Err ==> r->Err_0 == Error::Overflow,
    {
        match self::mul_floor(self.0, ratio) {
            Ok(v) => Ok(Token(v)),
            Err(e) => Err(e),
        }
    }

    /// The ratio of the number of tokens to `rhs`, rounded down to the atomic unit.
    pub fn ratio(self, rhs: Token) -> (r: Result<Decimal, Error>)
        ensures
            rhs@ == 0 ==> r is Err && r->Err_0 == Error::DivideByZero,
            rhs@ != 0 && !fits(ratio_of(self@, rhs@)) ==> r is Err && r->Err_0 == Error::Overflow,
            rhs@ != 0 && fits(ratio_of(self@, rhs@)) ==> r is Ok && r->Ok_0@ == ratio_of(
                self@,
                rhs@,
            ),
    {
        Decimal::checked_from_ratio(self.0, rhs.0)
    }

    /// The number of tokens as a ratio; `Overflow` when that needs more than
    /// 256 bits of atomic units.
    pub fn to_decimal256(self) -> (r: Result<Decimal, Error>)
        ensures
            r is Ok <==> fits(self@ * unit()),
            r is Ok ==> r->Ok_0@ == self@ * unit(),
            r is Err ==> r->Err_0 == Error::Overflow,
    {
        match Decimal::from_uint(self.0) {
            Some(d) => Ok(d),
            None => Err(Error::Overflow),
        }
    }
}

impl LpShare {
    pub fn zero() -> (r: LpShare)
        ensures
            r@ == 0,
    {
        LpShare(U256::zero())
    }

    pub fn is_zero(self) -> (r: bool)
        ensures
            r == (self@ == 0),
    {
        self.0.is_zero()
    }

    /// The sum; `Overflow` when it needs more than 256 bits.
    pub fn checked_add(self, rhs: LpShare) -> (r: Result<LpShare, Error>)
        ensures
            r is Ok <==> fits(self@ + rhs@),
            r is Ok ==> r->Ok_0@ == self@ + rhs@,
            r is Err ==> r->Err_0 == Error::Overflow,
    {
        match self.0.checked_add(rhs.0) {
            Some(v) => Ok(LpShare(v)),
            None => Err(Error::Overflow),
        }
    }

    /// The difference; `Underflow` when `rhs` is the larger.
    pub fn checked_sub(self, rhs: LpShare) -> (r: Result<LpShare, Error>)
        ensures
            r is Ok <==> rhs@ <= self@,
            r is Ok ==> r->Ok_0@ == self@ - rhs@,
            r is Err ==> r->Err_0 == Error::Underflow,
    {
        match self.0.checked_sub(rhs.0) {
            Some(v) => Ok(LpShare(v)),
            None => Err(Error::Underflow),
        }
    }

    /// The number of shares times `ratio`, rounded down.
    pub fn mul_floor(self, ratio: Decimal) -> (r: Result<LpShare, Error>)
        ensures
            r is Ok <==> scaled_fits(self@, ratio@),
            r is Ok ==> r->Ok_0@ == scaled_floor(self@, ratio@),
            r is Err ==> r->Err_0 == Error::Overflow,
    {
        match self::mul_floor(self.0, ratio) {
            Ok(v) => Ok(LpShare(v)),
            Err(e) => Err(e),
        }
    }

    /// The ratio of the number of shares to `rhs`, rounded down to the atomic unit.
    pub fn ratio(self, rhs: LpShare) -> (r: Result<Decimal, Error>)
        ensures
            rhs@ == 0 ==> r is Err && r->Err_0 == Error::DivideByZero,
            rhs@ != 0 && !fits(ratio_of(self@, rhs@)) ==> r is Err && r->Err_0 == Error::Overflow,
            rhs@ != 0 && fits(ratio_of(self@, rhs@)) ==> r is Ok && r->Ok_0@ == ratio_of(
                self@,
                rhs@,
            ),
    {
        Decimal::checked_from_ratio(self.0, rhs.0)
    }
}

impl MarketId {
    /// The id of the first market.
    pub fn one() -> (r: MarketId)
        ensures
            r.0 == 1,
    {
        MarketId(1)
    }

    /// The id of the market after this one.
    pub fn next(self) -> (r: MarketId)
        requires
            self.0 < u32::MAX,
        ensures
            r.0 == self.0 + 1,
    {
        MarketId(self.0 + 1)
    }
}

impl OutcomeId {
    /// The outcome's index in its market's list of outcomes.
    pub fn usize(&self) -> (r: usize)
        ensures
            r == self.0,
    {
        self.0 as usize
    }

    /// The id of the outcome at index `idx`; `TooManyOutcomes` when the index
    /// is above 255.
    pub fn try_from_index(idx: usize) -> (r: Result<OutcomeId, Error>)
        ensures
            idx <= 255 ==> r is Ok && r->Ok_0.0 == idx,
            idx > 255 ==> r is Err && r->Err_0 == (Error::TooManyOutcomes { idx }),
    {
        if idx <= 255 {
            Ok(OutcomeId(idx as u8))
        } else {
            Err(Error::TooManyOutcomes { idx })
        }
    }
}

} // verus!
