//! The coin that comes with a message.

use crate::api::MessageInfo;
use crate::error::Error;
use crate::types::Collateral;
use crate::wide::U256;
use vstd::prelude::*;

verus! {

/// What came with a message: nothing, or one coin.
#[must_use]
#[derive(Debug)]
pub enum Funds {
    NoFunds,
    Funds { denom: String, amount: u128 },
}

impl Funds {
    /// The coin that came with the message; `MultipleAssetsProvided` when
    /// more than one did.
    pub fn from_message_info(info: &MessageInfo) -> (r: Result<Funds, Error>)
        ensures
            r == funds_of(info),
    {
        if info.funds.len() == 0 {
            Ok(Funds::NoFunds)
        } else if info.funds.len() > 1 {
            Err(Error::MultipleAssetsProvided)
        } else {
            Ok(Funds::Funds { denom: info.funds[0].denom.clone(), amount: info.funds[0].amount })
        }
    }

    /// Passes when no coin came; else `UnexpectedFunds`.
    pub fn require_none(self) -> (r: Result<(), Error>)
        ensures
            match unexpected(self) {
                Some(e) => r is Err && r->Err_0 == e,
                None => r is Ok,
            },
    {
        match self {
            Funds::NoFunds => Ok(()),
            Funds::Funds { denom, amount } => Err(Error::UnexpectedFunds { denom, amount }),
        }
    }

    /// The amount of the coin that came, as collateral. `MissingRequiredFunds`
    /// when none came, `IncorrectFundsDenom` when it is in another denomination.
    pub fn require_funds(self, required_denom: &String) -> (r: Result<Collateral, Error>)
        ensures
            match funds_error(self, required_denom) {
                Some(e) => r is Err && r->Err_0 == e,
                None => r is Ok && r->Ok_0@ == self->amount,
            },
    {
        match self {
            Funds::NoFunds => Err(Error::MissingRequiredFunds { denom: required_denom.clone() }),
            Funds::Funds { denom, amount } => {
                if denom == *required_denom {
                    Ok(Collateral(U256::from_u128(amount)))
                } else {
                    Err(
                        Error::IncorrectFundsDenom {
                            actual_denom: denom,
                            amount,
                            required_denom: required_denom.clone(),
                        },
                    )
                }
            },
        }
    }
}

/// What came with a message: no coin, or the one coin. More than one coin
/// is refused with `MultipleAssetsProvided`.
pub open spec fn funds_of(info: &MessageInfo) -> Result<Funds, Error> {
    if info.funds.len() == 0 {
        Ok(Funds::NoFunds)
    } else if info.funds.len() == 1 {
        Ok(Funds::Funds { denom: info.funds[0].denom, amount: info.funds[0].amount })
    } else {
        Err(Error::MultipleAssetsProvided)
    }
}

/// Why a message that takes no coin is refused, if it is.
pub open spec fn unexpected(funds: Funds) -> Option<Error> {
    match funds {
        Funds::NoFunds => None,
        Funds::Funds { denom, amount } => Some(Error::UnexpectedFunds { denom, amount }),
    }
}

/// Why what came with a message does not serve as collateral in the
/// denomination `required_denom`, if it does not.
pub open spec fn funds_error(funds: Funds, required_denom: &String) -> Option<Error> {
    match funds {
        Funds::NoFunds => Some(Error::MissingRequiredFunds { denom: *required_denom }),
        Funds::Funds { denom, amount } => if denom@ == required_denom@ {
            None
        } else {
            Some(
                Error::IncorrectFundsDenom {
                    actual_denom: denom,
                    amount,
                    required_denom: *required_denom,
                },
            )
        },
    }
}

} // verus!
