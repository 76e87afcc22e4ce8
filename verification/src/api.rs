//! The messages that the market takes, and what it answers.

use crate::decimal::{unit, Decimal};
use crate::types::{MarketId, OutcomeId, Timestamp, Token};
use crate::wide::U256;
use vstd::prelude::*;

verus! {

/// A coin that comes with a message.
#[derive(Clone, Debug)]
pub struct Coin {
    pub denom: String,
    pub amount: u128,
}

/// Who sent a message, and the coins that came with it.
#[derive(Clone, Debug)]
pub struct MessageInfo {
    pub sender: String,
    pub funds: Vec<Coin>,
}

#[derive(Clone, Debug)]
pub struct InstantiateMsg {
    pub admin: String,
}

/// The part of a deposit that goes to the pool as liquidity when the
/// message names none: a tenth.
pub fn default_liquidity_portion() -> (r: Decimal)
    ensures
        r@ * 10 == unit(),
{
    Decimal::new(U256::from_u128(100_000_000_000_000_000))
}

#[derive(Clone, Debug)]
pub enum ExecuteMsg {
    AddMarket { params: AddMarketParams },
    /// Provide liquidity to the liquidity pool
    ///
    /// Due to the nature of the CPMM model, providing liquidity
    /// will generally result in receiving some tokens back as well.
    Provide { id: MarketId },
    /// Place a bet on an outcome
    Deposit {
        id: MarketId,
        outcome: OutcomeId,
        /// What portion of generated tokens should be
        /// provided as liquidity.
        liquidity: Decimal,
    },
    /// Withdraw funds bet on an outcome
    Withdraw { id: MarketId, outcome: OutcomeId, tokens: Token },
    /// Declare the winner of a market
    SetWinner { id: MarketId, outcome: OutcomeId },
    /// Collect winnings from a market
    Collect { id: MarketId },
    /// Appoint a new admin
    AppointAdmin { addr: String },
    /// Accept admin privileges
    AcceptAdmin {  },
}

#[derive(Clone, Debug)]
pub struct AddMarketParams {
    pub title: String,
    pub description: String,
    /// Wallet address. Sets the winner.
    pub arbitrator: String,
    pub outcomes: Vec<OutcomeDef>,
    /// Denom of collateral for this market.
    pub denom: String,
    /// Given as a ratio, e.g. 0.01 means 1%
    pub deposit_fee: Decimal,
    pub withdrawal_fee: Decimal,
    pub withdrawal_stop_date: Timestamp,
    pub deposit_stop_date: Timestamp,
    /// Which wallet receives house winnings.
    pub house: String,
}

#[derive(Clone, Debug)]
pub struct OutcomeDef {
    pub label: String,
    /// Initial number of tokens to leave in the pool.
    ///
    /// The ratios provided here will control the initial price.
    ///
    /// The values must be greater than zero and add up to the collateral
    /// provided to start the market.
    pub initial_amount: Token,
}

#[derive(Clone, Debug)]
pub enum QueryMsg {
    /// Returns [GlobalInfo]
    GlobalInfo {  },
    /// Returns the market
    Market { id: MarketId },
    /// Returns the wallet's position
    Positions { id: MarketId, addr: String },
}

#[derive(Clone, Debug)]
pub struct GlobalInfo {
    pub latest_market_id: Option<MarketId>,
    pub admin: String,
}

#[derive(Clone, Debug)]
pub struct OutcomeInfo {
    pub label: String,
    pub tokens: Token,
    pub wallet_count: u32,
}

#[derive(Debug)]
pub struct MigrateMsg {}

} // verus!
