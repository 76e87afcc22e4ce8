//! Unsigned 256-bit integers, held as bytes and computed by `cosmwasm_std::Uint256`.

use cosmwasm_std::{Uint128, Uint256};
use vstd::prelude::*;

verus! {

/// The number of values of a 256-bit unsigned integer, `2^256`.
pub open spec fn limit() -> nat {
    0x1_0000_0000_0000_0000_0000_0000_0000_0000_0000_0000_0000_0000_0000_0000_0000_0000nat
}

/// Whether `n` can be held in 256 bits.
pub open spec fn fits(n: nat) -> bool {
    n < limit()
}

/// The number that `bytes` spell, most significant byte first.
pub open spec fn be_value(bytes: Seq<u8>) -> nat
    decreases bytes.len(),
{
    if bytes.len() == 0 {
        0
    } else {
        be_value(bytes.drop_last()) * 256 + bytes.last() as nat
    }
}

/// An unsigned 256-bit integer in big-endian bytes.
///
/// The order of the bytes is the order of the values.
#[derive(Clone, Copy, Debug, PartialEq, Eq, PartialOrd, Ord)]
pub struct U256 {
    pub bytes: [u8; 32],
}

impl View for U256 {
    type V = nat;

    open spec fn view(&self) -> nat {
        be_value(self.bytes@)
    }
}

impl U256 {
    /// The 256-bit integer with the value `n`, for `n` below `2^256`.
    pub open spec fn of_nat(n: nat) -> U256 {
        choose|x: U256| x@ == n
    }

    /// `Uint256::from_u128`: the 256-bit integer with the value of `x`.
    #[verifier::external_body]
    pub(crate) fn from_u128(x: u128) -> (r: U256)
        ensures
            r@ == x as nat,
    {
        U256 { bytes: Uint256::from_u128(x).to_be_bytes() }
    }

    /// `Uint128::try_from` on a `Uint256`: the value as a `u128`, or `None`
    /// when it needs more than 128 bits.
    #[verifier::external_body]
    pub(crate) fn to_u128(self) -> (r: Option<u128>)
        ensures
            r is Some <==> self@ <= u128::MAX as nat,
            r is Some ==> r->0 as nat == self@,
    {
        match Uint128::try_from(Uint256::from_be_bytes(self.bytes)) {
            Ok(v) => Some(v.u128()),
            Err(_) => None,
        }
    }

    /// `Uint256::is_zero`: whether the value is zero.
    #[verifier::external_body]
    pub(crate) fn is_zero(&self) -> (r: bool)
        ensures
            r == (self@ == 0),
    {
        Uint256::from_be_bytes(self.bytes).is_zero()
    }

    /// The `<` of `Uint256`: whether the value is below that of `rhs`.
    #[verifier::external_body]
    pub(crate) fn lt(&self, rhs: &U256) -> (r: bool)
        ensures
            r == (self@ < rhs@),
    {
        Uint256::from_be_bytes(self.bytes) < Uint256::from_be_bytes(rhs.bytes)
    }

    /// `Uint256::checked_add`: the sum, or `None` when it needs more than 256 bits.
    #[verifier::external_body]
    pub(crate) fn checked_add(self, rhs: U256) -> (r: Option<U256>)
        ensures
            r is Some <==> fits(self@ + rhs@),
            r is Some ==> r->0@ == self@ + rhs@,
    {
        let a = Uint256::from_be_bytes(self.bytes);
        let b = Uint256::from_be_bytes(rhs.bytes);
        match a.checked_add(b) {
            Ok(v) => Some(U256 { bytes: v.to_be_bytes() }),
            Err(_) => None,
        }
    }

    /// `Uint256::checked_sub`: the difference, or `None` when `rhs` is the larger.
    #[verifier::external_body]
    pub(crate) fn checked_sub(self, rhs: U256) -> (r: Option<U256>)
        ensures
            r is Some <==> rhs@ <= self@,
            r is Some ==> r->0@ == self@ - rhs@,
    {
        let a = Uint256::from_be_bytes(self.bytes);
        let b = Uint256::from_be_bytes(rhs.bytes);
        match a.checked_sub(b) {
            Ok(v) => Some(U256 { bytes: v.to_be_bytes() }),
            Err(_) => None,
        }
    }

    /// `Uint256::checked_mul`: the product, or `None` when it needs more than 256 bits.
    #[verifier::external_body]
    pub(crate) fn checked_mul(self, rhs: U256) -> (r: Option<U256>)
        ensures
            r is Some <==> fits(self@ * rhs@),
            r is Some ==> r->0@ == self@ * rhs@,
    {
        let a = Uint256::from_be_bytes(self.bytes);
        let b = Uint256::from_be_bytes(rhs.bytes);
        match a.checked_mul(b) {
            Ok(v) => Some(U256 { bytes: v.to_be_bytes() }),
            Err(_) => None,
        }
    }

    /// `Uint256::checked_div`: the quotient rounded down, or `None` when `rhs` is zero.
    #[verifier::external_body]
    pub(crate) fn checked_div(self, rhs: U256) -> (r: Option<U256>)
        ensures
            r is Some <==> rhs@ != 0,
            r is Some ==> r->0@ == self@ / rhs@,
    {
        let a = Uint256::from_be_bytes(self.bytes);
        let b = Uint256::from_be_bytes(rhs.bytes);
        match a.checked_div(b) {
            Ok(v) => Some(U256 { bytes: v.to_be_bytes() }),
            Err(_) => None,
        }
    }

    /// Zero.
    pub fn zero() -> (r: U256)
        ensures
            r@ == 0,
    {
        U256::from_u128(0)
    }

    /// One.
    pub fn one() -> (r: U256)
        ensures
            r@ == 1,
    {
        U256::from_u128(1)
    }

    /// Whether the two values are the same number.
    pub fn same(&self, rhs: &U256) -> (r: bool)
        ensures
            r == (self@ == rhs@),
    {
        !self.lt(rhs) && !rhs.lt(self)
    }

    /// Whether the value is at most that of `rhs`.
    pub fn le(&self, rhs: &U256) -> (r: bool)
        ensures
            r == (self@ <= rhs@),
    {
        !rhs.lt(self)
    }

    /// The smaller of the two values.
    pub fn min(self, rhs: U256) -> (r: U256)
        ensures
            r@ == if self@ <= rhs@ { self@ } else { rhs@ },
            r == self || r == rhs,
    {
        if rhs.lt(&self) {
            rhs
        } else {
            self
        }
    }
}

/// Every 256-bit integer is below `2^256`.
pub proof fn lemma_bounded(x: U256)
    ensures
        fits(x@),
{
    lemma_be_value_bound(x.bytes@);
    assert(x.bytes@.len() == 32);
    reveal_with_fuel(pow256, 9);
    assert(pow256(8) == 0x1_0000_0000_0000_0000nat);
    assert(pow256(16) == 0x1_0000_0000_0000_0000_0000_0000_0000_0000nat);
    assert(pow256(24) == 0x1_0000_0000_0000_0000_0000_0000_0000_0000_0000_0000_0000_0000nat);
    assert(pow256(32) == limit());
}

/// Two 256-bit integers with the same value are the same.
pub proof fn lemma_view_injective(a: U256, b: U256)
    requires
        a@ == b@,
    ensures
        a == b,
{
    lemma_be_value_injective(a.bytes@, b.bytes@);
    assert(a.bytes =~= b.bytes);
}

/// A 256-bit integer is the one with its value.
pub proof fn lemma_of_nat(x: U256)
    ensures
        U256::of_nat(x@) == x,
{
    lemma_view_injective(U256::of_nat(x@), x);
}

proof fn lemma_be_value_injective(a: Seq<u8>, b: Seq<u8>)
    requires
        a.len() == b.len(),
        be_value(a) == be_value(b),
    ensures
        a =~= b,
    decreases a.len(),
{
    if a.len() > 0 {
        lemma_be_value_injective(a.drop_last(), b.drop_last());
        assert(a =~= a.drop_last().push(a.last()));
        assert(b =~= b.drop_last().push(b.last()));
    }
}

/// `256^n`.
spec fn pow256(n: nat) -> nat
    decreases n,
{
    if n == 0 {
        1
    } else {
        256 * pow256((n - 1) as nat)
    }
}

proof fn lemma_be_value_bound(bytes: Seq<u8>)
    ensures
        be_value(bytes) < pow256(bytes.len()),
    decreases bytes.len(),
{
    if bytes.len() > 0 {
        lemma_be_value_bound(bytes.drop_last());
    }
}

} // verus!
