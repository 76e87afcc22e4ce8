//! What the market refuses, and why.

use crate::decimal::Decimal;
use crate::types::{Collateral, MarketId, OutcomeId, Timestamp, Token};
use vstd::prelude::*;

verus! {

/// The reasons for which an operation on a market is refused.
#[derive(Debug)]
pub enum Error {
    /// A subtraction would have gone below zero.
    Underflow,
    /// A sum, a product or a ratio needs more than 256 bits, or a counter more than 32.
    Overflow,
    /// An amount of collateral does not fit the 128 bits of a coin.
    ConversionOverflow,
    /// A division by zero: the pool holds no tokens to weigh against.
    DivideByZero,
    /// More than one coin came with the message.
    MultipleAssetsProvided,
    /// A coin came with a message that takes none.
    UnexpectedFunds { denom: String, amount: u128 },
    /// The coin that came is not in the market's denomination.
    IncorrectFundsDenom { actual_denom: String, amount: u128, required_denom: String },
    /// No coin came with a message that needs one.
    MissingRequiredFunds { denom: String },
    /// The sender may not do this.
    Unauthorized,
    /// The outcomes' shares of the initial collateral do not add up to it.
    IncorrectFundsPerOutcome { provided: Collateral },
    /// The part of a deposit that is to go to the pool as liquidity is not below the whole.
    InvalidLiquidityRatio { liquidity: Decimal },
    /// An outcome was given no share of the initial collateral.
    OutcomeWeightCannotBeZero,
    /// Deposits would stop before withdrawals do.
    DepositStopDateBeforeWithdrawalStop { withdrawal_stop_date: Timestamp, deposit_stop_date: Timestamp },
    /// Withdrawals would have stopped before the market begins.
    WithdrawalStopDateInPast { now: Timestamp, withdrawal_stop_date: Timestamp },
    /// There is no market with this id.
    MarketNotFound { id: MarketId },
    /// The sender holds no position in the market.
    NoPositionsOnMarket { id: MarketId },
    /// The sender holds no tokens of the outcome.
    NoTokensFound { id: MarketId, outcome: OutcomeId },
    /// The sender holds fewer tokens of the outcome than asked for.
    InsufficientTokens { id: MarketId, outcome: OutcomeId, requested: Token, available: Token },
    /// The time is outside the window in which the operation is open:
    /// `cutoff` is the stop date that decides.
    WindowClosed { id: MarketId, now: Timestamp, cutoff: Timestamp },
    /// The market has no outcome with this id.
    InvalidOutcome { id: MarketId, outcome_count: usize, outcome: OutcomeId },
    /// The market's winner has been declared before.
    WinnerAlreadySet { id: MarketId },
    /// The market's winner has not been declared yet.
    NoWinnerSet { id: MarketId },
    /// The sender's winnings have been paid out before.
    AlreadyClaimedWinnings { id: MarketId },
    /// Nobody has been appointed as the next admin.
    NoAppointedAdmin,
    /// The sender is not the one appointed as the next admin.
    NotAppointedAdmin,
    /// An outcome's index does not fit an outcome id.
    TooManyOutcomes { idx: usize },
    /// Tokens can only be sold back on a market of two outcomes.
    UnsupportedOutcomeCount { total_outcomes: usize },
}

} // verus!
