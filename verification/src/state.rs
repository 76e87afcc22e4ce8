//! What is kept of a market: its outcomes, its pool and each wallet's position.

use crate::cpmm::{
    after_buy, buy_error, liquidity_error, minted_shares, tokens_bought, with_liquidity,
    AddLiquidity, Buy, Pool, PoolView,
};
use crate::decimal::{unit, Decimal};
use crate::error::Error;
use crate::math::amounts;
use crate::swap::{after_sell, sell_error, sell_returned, sell_root, sets_redeemed, Sell};
use crate::types::{
    scaled_fits, scaled_floor, Collateral, LpShare, MarketId, OutcomeId, Timestamp, Token,
};
use crate::wide::fits;
use vstd::prelude::*;

verus! {

/// One outcome of a market.
#[derive(Debug)]
pub struct StoredOutcome {
    pub id: OutcomeId,
    pub label: String,
    /// The tokens of this outcome that the pool holds.
    pub pool_tokens: Token,
    /// Count of wallets holding tokens
    pub wallets: u32,
}

/// A market.
#[derive(Debug)]
pub struct StoredMarket {
    pub id: MarketId,
    pub title: String,
    pub description: String,
    /// The wallet that declares the winner.
    pub arbitrator: String,
    pub outcomes: Vec<StoredOutcome>,
    /// Denomination of the collateral.
    pub denom: String,
    /// Given as a ratio, e.g. 0.01 means 1%
    pub deposit_fee: Decimal,
    pub withdrawal_fee: Decimal,
    /// The collateral that backs the market.
    pub pool_size: Collateral,
    pub deposit_stop_date: Timestamp,
    pub withdrawal_stop_date: Timestamp,
    pub winner: Option<OutcomeId>,
    /// The wallet that gets the fees, as liquidity.
    pub house: String,
    /// Count of wallets holding tokens or shares
    pub total_wallets: u32,
    /// Total shares across all wallets
    pub lp_shares: LpShare,
}

/// What a wallet holds in a market.
#[derive(Debug)]
pub struct ShareInfo {
    /// The tokens of each outcome that the wallet holds itself.
    pub outcomes: Vec<Token>,
    /// LP shares held by this wallet
    pub shares: LpShare,
    pub claimed_winnings: bool,
}

/// The numbers of a wallet's position.
pub struct PositionView {
    /// The tokens of each outcome that the wallet holds itself.
    pub tokens: Seq<nat>,
    /// The liquidity shares that the wallet holds.
    pub shares: nat,
    /// Whether the wallet's winnings have been paid out.
    pub claimed: bool,
}

impl View for ShareInfo {
    type V = PositionView;

    open spec fn view(&self) -> PositionView {
        PositionView {
            tokens: amounts(self.outcomes@),
            shares: self.shares@,
            claimed: self.claimed_winnings,
        }
    }
}

/// The position of a wallet that holds nothing, in a market of `n` outcomes.
pub open spec fn empty_position(n: nat) -> PositionView {
    PositionView { tokens: Seq::new(n, |i: int| 0nat), shares: 0, claimed: false }
}

/// Whether some balance in `tokens` is not zero.
pub open spec fn holds_tokens(tokens: Seq<nat>) -> bool {
    exists|i: int| 0 <= i < tokens.len() && tokens[i] > 0
}

/// Whether the wallet counts among a market's wallets: it holds tokens or shares.
pub open spec fn is_active(p: PositionView) -> bool {
    holds_tokens(p.tokens) || p.shares > 0
}

/// Whether `lp` shares and `tokens` of each outcome can be added to a position.
pub open spec fn credit_fits(p: PositionView, lp: nat, tokens: Seq<nat>) -> bool {
    &&& fits(p.shares + lp)
    &&& forall|i: int| 0 <= i < p.tokens.len() ==> fits(#[trigger] p.tokens[i] + tokens[i])
}

/// The position with `lp` shares and `tokens` of each outcome added.
pub open spec fn credited(p: PositionView, lp: nat, tokens: Seq<nat>) -> PositionView {
    PositionView {
        tokens: Seq::new(p.tokens.len(), |i: int| p.tokens[i] + tokens[i]),
        shares: p.shares + lp,
        claimed: p.claimed,
    }
}

/// `amount` tokens of outcome `outcome` and none of the others, of `n` outcomes.
pub open spec fn only(n: nat, outcome: int, amount: nat) -> Seq<nat> {
    Seq::new(
        n,
        |i: int|
            if i == outcome {
                amount
            } else {
                0nat
            },
    )
}

/// A wallet's share of a pool balance of `pool` tokens: as its `shares` are
/// to all `total` shares, the ratio and the product both rounded down.
pub open spec fn pool_entitlement(pool: nat, shares: nat, total: nat) -> nat {
    scaled_floor(pool, shares * unit() / total)
}

impl ShareInfo {
    /// The position of a wallet that holds nothing.
    pub fn new(outcome_count: usize) -> (r: ShareInfo)
        ensures
            r@ == empty_position(outcome_count as nat),
            r.outcomes.len() == outcome_count,
    {
        let mut outcomes: Vec<Token> = Vec::new();
        let mut i: usize = 0;
        while i < outcome_count
            invariant
                i <= outcome_count,
                outcomes.len() == i,
                forall|j: int| 0 <= j < i ==> (#[trigger] outcomes[j])@ == 0,
            decreases outcome_count - i,
        {
            outcomes.push(Token::zero());
            i = i + 1;
        }
        let r = ShareInfo { outcomes, shares: LpShare::zero(), claimed_winnings: false };
        assert(r@.tokens =~= empty_position(outcome_count as nat).tokens);
        r
    }

    /// A copy of the position.
    pub fn copy(&self) -> (r: ShareInfo)
        ensures
            r@ == self@,
            r.outcomes.len() == self.outcomes.len(),
    {
        let mut outcomes: Vec<Token> = Vec::new();
        let mut i: usize = 0;
        while i < self.outcomes.len()
            invariant
                i <= self.outcomes.len(),
                outcomes.len() == i,
                forall|j: int| 0 <= j < i ==> #[trigger] outcomes[j] == self.outcomes[j],
            decreases self.outcomes.len() - i,
        {
            outcomes.push(self.outcomes[i]);
            i = i + 1;
        }
        let r = ShareInfo {
            outcomes,
            shares: self.shares,
            claimed_winnings: self.claimed_winnings,
        };
        assert(r@.tokens =~= self@.tokens);
        r
    }

    /// Whether the wallet itself holds tokens of any outcome.
    pub fn has_tokens(&self) -> (r: bool)
        ensures
            r == holds_tokens(self@.tokens),
    {
        let mut i: usize = 0;
        while i < self.outcomes.len()
            invariant
                i <= self.outcomes.len(),
                forall|j: int| 0 <= j < i ==> self@.tokens[j] == 0,
            decreases self.outcomes.len() - i,
        {
            if !self.outcomes[i].is_zero() {
                assert(self@.tokens[i as int] > 0);
                return true;
            }
            i = i + 1;
        }
        false
    }

    /// Whether the wallet counts among the market's wallets.
    pub fn is_active(&self) -> (r: bool)
        ensures
            r == is_active(self@),
    {
        self.has_tokens() || !self.shares.is_zero()
    }

    /// The position with `lp` shares and `tokens` of each outcome added;
    /// `Overflow` when a sum needs more than 256 bits.
    pub fn credited(&self, lp: LpShare, tokens: &Vec<Token>) -> (r: Result<ShareInfo, Error>)
        requires
            tokens.len() == self.outcomes.len(),
        ensures
            r is Ok <==> credit_fits(self@, lp@, amounts(tokens@)),
            r is Ok ==> r->Ok_0@ == credited(self@, lp@, amounts(tokens@)) && r->Ok_0.outcomes.len()
                == self.outcomes.len(),
            r is Err ==> r->Err_0 == Error::Overflow,
    {
        let shares = match self.shares.checked_add(lp) {
            Ok(v) => v,
            Err(e) => { return Err(e); },
        };
        let ghost p = self@;
        let ghost add = amounts(tokens@);
        let mut outcomes: Vec<Token> = Vec::new();
        let mut i: usize = 0;
        while i < self.outcomes.len()
            invariant
                i <= self.outcomes.len(),
                tokens.len() == self.outcomes.len(),
                p == self@,
                add == amounts(tokens@),
                outcomes.len() == i,
                forall|j: int| 0 <= j < i ==> fits(#[trigger] p.tokens[j] + add[j]),
                forall|j: int| 0 <= j < i ==> (#[trigger] outcomes[j])@ == p.tokens[j] + add[j],
            decreases self.outcomes.len() - i,
        {
            assert(self.outcomes[i as int]@ == p.tokens[i as int]);
            let sum = match self.outcomes[i].checked_add(tokens[i]) {
                Ok(v) => v,
                Err(e) => { return Err(e); },
            };
            outcomes.push(sum);
            i = i + 1;
        }
        let r = ShareInfo { outcomes, shares, claimed_winnings: self.claimed_winnings };
        assert(r@.tokens =~= credited(p, lp@, add).tokens);
        Ok(r)
    }
}

/// Why a wallet's entitlement to tokens of `outcome` cannot be told, if it
/// cannot, in the market with the id `id`.
pub open spec fn entitlement_error(
    p: PositionView,
    pool: PoolView,
    id: MarketId,
    outcome: OutcomeId,
) -> Option<Error> {
    let o = outcome.0 as int;
    if o >= p.tokens.len() || o >= pool.tokens.len() {
        Some(Error::InvalidOutcome { id, outcome_count: p.tokens.len() as usize, outcome })
    } else if pool.shares == 0 {
        Some(Error::DivideByZero)
    } else if !fits(p.shares * unit() / pool.shares) {
        Some(Error::Overflow)
    } else if !scaled_fits(pool.tokens[o], p.shares * unit() / pool.shares) {
        Some(Error::Overflow)
    } else if !fits(p.tokens[o] + pool_entitlement(pool.tokens[o], p.shares, pool.shares)) {
        Some(Error::Overflow)
    } else {
        None
    }
}

/// A wallet's entitlement to tokens of `outcome`: those it holds itself, and
/// its share of those that the pool holds.
pub open spec fn entitlement(p: PositionView, pool: PoolView, outcome: OutcomeId) -> nat {
    p.tokens[outcome.0 as int] + pool_entitlement(
        pool.tokens[outcome.0 as int],
        p.shares,
        pool.shares,
    )
}

impl ShareInfo {
    /// The wallet's entitlement to tokens of `outcome` in `market`: those it
    /// holds itself, and its share of those that the pool holds.
    pub fn get_outcome(&self, market: &StoredMarket, outcome: OutcomeId) -> (r: Result<
        Token,
        Error,
    >)
        ensures
            match entitlement_error(self@, market.pool(), market.id, outcome) {
                Some(e) => r is Err && r->Err_0 == e,
                None => r is Ok && r->Ok_0@ == entitlement(self@, market.pool(), outcome),
            },
    {
        let o = outcome.usize();
        if o >= self.outcomes.len() || o >= market.outcomes.len() {
            return Err(
                Error::InvalidOutcome {
                    id: market.id,
                    outcome_count: self.outcomes.len(),
                    outcome,
                },
            );
        }
        let from_tokens = self.outcomes[o];
        let part = match self.shares.ratio(market.lp_shares) {
            Ok(v) => v,
            Err(e) => { return Err(e); },
        };
        let from_pool = match market.outcomes[o].pool_tokens.mul_floor(part) {
            Ok(v) => v,
            Err(e) => { return Err(e); },
        };
        from_tokens.checked_add(from_pool)
    }
}

impl StoredMarket {
    /// The numbers of the market's pool.
    pub open spec fn pool(&self) -> PoolView {
        PoolView {
            tokens: Seq::new(self.outcomes.len() as nat, |i: int| self.outcomes[i].pool_tokens@),
            size: self.pool_size@,
            shares: self.lp_shares@,
        }
    }

    /// Whether the market is as `other` in all but the numbers of its pool.
    pub open spec fn same_but_pool(&self, other: &StoredMarket) -> bool {
        &&& self.id == other.id
        &&& self.title == other.title
        &&& self.description == other.description
        &&& self.arbitrator == other.arbitrator
        &&& self.denom == other.denom
        &&& self.deposit_fee == other.deposit_fee
        &&& self.withdrawal_fee == other.withdrawal_fee
        &&& self.deposit_stop_date == other.deposit_stop_date
        &&& self.withdrawal_stop_date == other.withdrawal_stop_date
        &&& self.winner == other.winner
        &&& self.house == other.house
        &&& self.total_wallets == other.total_wallets
        &&& self.outcomes.len() == other.outcomes.len()
        &&& forall|i: int|
            0 <= i < self.outcomes.len() ==> (#[trigger] self.outcomes[i]).id == other.outcomes[i].id
                && self.outcomes[i].label == other.outcomes[i].label && self.outcomes[i].wallets
                == other.outcomes[i].wallets
    }

    /// The error for a sale on a market that has not two outcomes.
    pub open spec fn unsupported(&self) -> Error {
        Error::UnsupportedOutcomeCount { total_outcomes: self.outcomes.len() }
    }

    /// The error for an outcome that the market does not have.
    pub open spec fn invalid_outcome(&self, outcome: OutcomeId) -> Error {
        Error::InvalidOutcome { id: self.id, outcome_count: self.outcomes.len(), outcome }
    }

    /// A copy of the numbers of the market's pool.
    pub fn numbers(&self) -> (r: Pool)
        ensures
            r@ == self.pool(),
            r.tokens.len() == self.outcomes.len(),
    {
        let mut tokens: Vec<Token> = Vec::new();
        let mut i: usize = 0;
        while i < self.outcomes.len()
            invariant
                i <= self.outcomes.len(),
                tokens.len() == i,
                forall|j: int| 0 <= j < i ==> #[trigger] tokens[j] == self.outcomes[j].pool_tokens,
            decreases self.outcomes.len() - i,
        {
            tokens.push(self.outcomes[i].pool_tokens);
            i = i + 1;
        }
        let r = Pool { tokens, size: self.pool_size, shares: self.lp_shares };
        assert(r@.tokens =~= self.pool().tokens);
        r
    }

    /// Takes over the numbers of `pool`.
    pub fn set_numbers(&mut self, pool: &Pool)
        requires
            pool.tokens.len() == old(self).outcomes.len(),
        ensures
            final(self).pool() == pool@,
            final(self).same_but_pool(old(self)),
    {
        self.pool_size = pool.size;
        self.lp_shares = pool.shares;
        let n = self.outcomes.len();
        let mut i: usize = 0;
        while i < n
            invariant
                i <= n,
                n == self.outcomes.len(),
                pool.tokens.len() == n,
                self.same_but_pool(old(self)),
                self.pool_size == pool.size,
                self.lp_shares == pool.shares,
                forall|j: int| 0 <= j < i ==> (#[trigger] self.outcomes[j]).pool_tokens == pool.tokens[j],
            decreases n - i,
        {
            self.outcomes[i].pool_tokens = pool.tokens[i];
            i = i + 1;
        }
        assert(self.pool().tokens =~= pool@.tokens);
    }

    /// The outcome with the given id; `InvalidOutcome` when there is none.
    pub fn get_outcome(&self, outcome: OutcomeId) -> (r: Result<&StoredOutcome, Error>)
        ensures
            outcome.0 < self.outcomes.len() ==> r is Ok && *r->Ok_0 == self.outcomes[outcome.0 as int],
            outcome.0 >= self.outcomes.len() ==> r is Err && r->Err_0 == self.invalid_outcome(
                outcome,
            ),
    {
        if outcome.usize() < self.outcomes.len() {
            Ok(&self.outcomes[outcome.usize()])
        } else {
            Err(Error::InvalidOutcome { id: self.id, outcome_count: self.outcomes.len(), outcome })
        }
    }

    /// Adds liquidity to the market without changing prices of assets.
    ///
    /// On an error the market is left as it was.
    pub fn add_liquidity(&mut self, funds: Collateral) -> (r: Result<AddLiquidity, Error>)
        ensures
            match liquidity_error(old(self).pool(), funds@) {
                Some(e) => r is Err && r->Err_0 == e && *final(self) == *old(self),
                None => r is Ok && final(self).pool() == with_liquidity(old(self).pool(), funds@)
                    && final(self).same_but_pool(old(self)) && r->Ok_0.is_for(
                    old(self).pool(),
                    funds@,
                ),
            },
    {
        let pool = self.numbers();
        match pool.add_liquidity(funds) {
            Ok((next, minted)) => {
                proof {
                    assert(next@.tokens.len() == pool@.tokens.len());
                }
                self.set_numbers(&next);
                Ok(minted)
            },
            Err(e) => Err(e),
        }
    }

    /// Place a bet on the given outcome.
    ///
    /// Returns the number of tokens purchased, and the liquidity shares that
    /// came with them. On an error the market is left as it was.
    pub fn buy(&mut self, selected_outcome: OutcomeId, funds: Collateral, liquidity: Decimal) -> (r:
        Result<Buy, Error>)
        ensures
            selected_outcome.0 >= old(self).outcomes.len() ==> r is Err
                && r->Err_0 == old(self).invalid_outcome(selected_outcome)
                && *final(self) == *old(self),
            selected_outcome.0 < old(self).outcomes.len() ==> (match buy_error(
                old(self).pool(),
                selected_outcome.0 as int,
                funds@,
                liquidity,
            ) {
                Some(e) => r is Err && r->Err_0 == e && *final(self) == *old(self),
                None => r is Ok && final(self).pool() == after_buy(
                    old(self).pool(),
                    selected_outcome.0 as int,
                    funds@,
                    scaled_floor(funds@, liquidity@),
                ) && final(self).same_but_pool(old(self)) && r->Ok_0.lp@ == minted_shares(
                    old(self).pool(),
                    scaled_floor(funds@, liquidity@),
                ) && r->Ok_0.tokens@ == tokens_bought(
                    old(self).pool(),
                    selected_outcome.0 as int,
                    funds@,
                    scaled_floor(funds@, liquidity@),
                ),
            }),
    {
        // Used to sanity check that the selected_outcome is valid
        match self.get_outcome(selected_outcome) {
            Ok(_) => {},
            Err(e) => { return Err(e); },
        }
        let pool = self.numbers();
        match pool.buy(selected_outcome.usize(), funds, liquidity) {
            Ok((next, bought)) => {
                proof {
                    assert(next@.tokens.len() == pool@.tokens.len());
                }
                self.set_numbers(&next);
                Ok(bought)
            },
            Err(e) => Err(e),
        }
    }

    /// Burns the given number of tokens for the given outcome.
    ///
    /// Returns the amount of liquidity freed up, and the tokens left over.
    /// Only a market of two outcomes can do this. On an error the market is
    /// left as it was.
    pub fn sell(&mut self, selected_outcome: OutcomeId, tokens: Token) -> (r: Result<Sell, Error>)
        ensures
            old(self).outcomes.len() != 2 ==> r is Err
                && r->Err_0 == old(self).unsupported()
                && *final(self) == *old(self),
            old(self).outcomes.len() == 2 && selected_outcome.0 >= 2 ==> r is Err && r->Err_0
                == old(self).invalid_outcome(selected_outcome) && *final(self) == *old(self),
            old(self).outcomes.len() == 2 && selected_outcome.0 < 2 ==> (match sell_error(
                old(self).pool(),
                selected_outcome.0 as int,
                tokens@,
                old(self).root_for(selected_outcome, tokens),
            ) {
                Some(e) => r is Err && r->Err_0 == e && *final(self) == *old(self),
                None => r is Ok && final(self).pool() == after_sell(
                    old(self).pool(),
                    selected_outcome.0 as int,
                    tokens@,
                    old(self).root_for(selected_outcome, tokens),
                ) && final(self).same_but_pool(old(self)) && r->Ok_0.funds@ == sets_redeemed(
                    old(self).pool().tokens[selected_outcome.0 as int],
                    old(self).pool().tokens[1 - selected_outcome.0],
                    tokens@,
                    old(self).root_for(selected_outcome, tokens),
                ) && amounts(r->Ok_0.returned@) == sell_returned(
                    old(self).pool(),
                    selected_outcome.0 as int,
                    tokens@,
                    old(self).root_for(selected_outcome, tokens),
                ),
            }),
    {
        if self.outcomes.len() != 2 {
            return Err(Error::UnsupportedOutcomeCount { total_outcomes: self.outcomes.len() });
        }
        match self.get_outcome(selected_outcome) {
            Ok(_) => {},
            Err(e) => { return Err(e); },
        }
        let pool = self.numbers();
        match pool.sell(selected_outcome.usize(), tokens) {
            Ok((next, sold)) => {
                proof {
                    assert(next@.tokens.len() == 2);
                }
                self.set_numbers(&next);
                Ok(sold)
            },
            Err(e) => Err(e),
        }
    }

    /// The square root of the discriminant of a sale of `tokens` of the
    /// given outcome, in atomic units, on a market of two outcomes.
    pub open spec fn root_for(&self, selected_outcome: OutcomeId, tokens: Token) -> nat {
        sell_root(
            self.pool().tokens[selected_outcome.0 as int],
            self.pool().tokens[1 - selected_outcome.0],
            tokens@,
        )
    }
}

} // verus!
