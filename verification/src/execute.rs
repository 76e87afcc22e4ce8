//! What wallets do on a market: provide liquidity, deposit, withdraw,
//! declare the winner and collect.

use crate::api::{AddMarketParams, OutcomeDef};
use crate::cpmm::{
    after_buy, buy_error, minted_shares, tokens_bought, with_liquidity, AddLiquidity, PoolView,
};
use crate::decimal::Decimal;
use crate::error::Error;
use crate::ledger::{
    active, find, held, holding, lemma_position_after_put, lemma_single, position_of, put,
    shares_held, total, Holder, Ledger, LedgerView,
};
use crate::math::{amounts, lemma_max_of_attained, lemma_sum_of_bounds, max_of, sum_of};
use crate::sanity::{
    lemma_collect_keeps_sane, lemma_deposit_keeps_sane, lemma_provision_keeps_sane,
    lemma_set_winner_keeps_sane, lemma_withdraw_keeps_sane,
};
use crate::state::{
    credit_fits, credited, entitlement, entitlement_error, only, PositionView, ShareInfo,
    StoredMarket, StoredOutcome,
};
use crate::swap::{after_sell, sell_error, sell_returned, sets_redeemed};
use crate::types::{
    scaled_ceil, scaled_fits, scaled_floor, Collateral, LpShare, MarketId, OutcomeId, Timestamp,
    Token,
};
use crate::util::{funds_error, Funds};
use crate::wide::{fits, lemma_of_nat, U256};
use vstd::prelude::*;

verus! {

/// What a deposit came to.
#[derive(Debug)]
pub struct Deposited {
    /// The tokens of the outcome that the sender bought.
    pub tokens: Token,
    /// The liquidity shares minted for the sender.
    pub lp: LpShare,
    /// The collateral that came with the deposit.
    pub deposit_amount: Collateral,
    /// The part of it that went to the house, as liquidity.
    pub fee: Collateral,
}

/// What a withdrawal came to.
#[derive(Debug)]
pub struct Withdrawn {
    /// The tokens that the sender gave up.
    pub tokens: Token,
    /// The part of the collateral freed that went to the house, as liquidity.
    pub fee: Collateral,
    /// The collateral to send to the sender.
    pub withdrawal: u128,
}

/// What collecting winnings came to.
#[derive(Debug)]
pub struct Collected {
    pub winner: OutcomeId,
    /// The tokens of the winner that the sender is entitled to.
    pub tokens: Token,
    /// The collateral to send to the sender: one unit for each token.
    pub winnings: u128,
}

/// The position with `t` tokens of `outcome` less.
pub open spec fn debited(p: PositionView, outcome: int, t: nat) -> PositionView {
    PositionView { tokens: p.tokens.update(outcome, (p.tokens[outcome] - t) as nat), ..p }
}

/// The position with the winnings paid out.
pub open spec fn claimed(p: PositionView) -> PositionView {
    PositionView { claimed: true, ..p }
}

/// The outcomes of a new market, and what the house gets.
#[derive(Debug)]
pub struct InitialOutcomes {
    pub outcomes: Vec<StoredOutcome>,
    /// Tokens returned to the user
    pub returned: Vec<Token>,
}

/// The tokens that the outcomes are to start with in the pool.
pub open spec fn allocations(outcomes: Seq<OutcomeDef>) -> Seq<nat> {
    Seq::new(outcomes.len(), |i: int| outcomes[i].initial_amount@)
}

/// Why a market cannot start with the pool balances `allocs` on the
/// collateral `funds`, if it cannot: there must be an outcome, and no more
/// than an outcome id can number; each must start with tokens in the pool;
/// and the balances must add up to the collateral.
pub open spec fn allocation_error(allocs: Seq<nat>, funds: Collateral) -> Option<Error> {
    if allocs.len() == 0 {
        Some(Error::UnsupportedOutcomeCount { total_outcomes: 0 })
    } else if allocs.len() > 256 {
        Some(Error::TooManyOutcomes { idx: 256 })
    } else if exists|i: int| 0 <= i < allocs.len() && #[trigger] allocs[i] == 0 {
        Some(Error::OutcomeWeightCannotBeZero)
    } else if sum_of(allocs) != funds@ {
        Some(Error::IncorrectFundsPerOutcome { provided: funds })
    } else {
        None
    }
}

impl InitialOutcomes {
    /// Whether these are the outcomes `defs` on the collateral `funds`:
    /// numbered from 0, each with its balance in the pool, and the house
    /// with the rest of the tokens minted for it.
    pub open spec fn is_for(&self, defs: Seq<OutcomeDef>, funds: nat) -> bool {
        &&& self.outcomes.len() == defs.len()
        &&& self.returned.len() == defs.len()
        &&& forall|i: int|
            0 <= i < defs.len() ==> {
                &&& (#[trigger] self.outcomes[i]).id.0 == i
                &&& self.outcomes[i].label == defs[i].label
                &&& self.outcomes[i].pool_tokens@ == defs[i].initial_amount@
                &&& self.outcomes[i].wallets == (if defs[i].initial_amount@ == funds {
                    0u32
                } else {
                    1u32
                })
                &&& self.returned[i]@ == funds - defs[i].initial_amount@
            }
    }
}

/// The outcomes of a new market with the collateral `funds`.
pub fn initial_outcomes(outcomes: Vec<OutcomeDef>, funds: Collateral) -> (r: Result<
    InitialOutcomes,
    Error,
>)
    ensures
        match allocation_error(allocations(outcomes@), funds) {
            Some(e) => r is Err && r->Err_0 == e,
            None => r is Ok && r->Ok_0.is_for(outcomes@, funds@),
        },
{
    let ghost allocs = allocations(outcomes@);
    let n = outcomes.len();
    if n == 0 {
        return Err(Error::UnsupportedOutcomeCount { total_outcomes: 0 });
    }
    if n > 256 {
        return Err(Error::TooManyOutcomes { idx: 256 });
    }
    let mut i: usize = 0;
    while i < n
        invariant
            i <= n,
            n == outcomes.len(),
            0 < n <= 256,
            allocs == allocations(outcomes@),
            forall|j: int| 0 <= j < i ==> #[trigger] allocs[j] != 0,
        decreases n - i,
    {
        if outcomes[i].initial_amount.is_zero() {
            assert(allocs[i as int] == 0);
            return Err(Error::OutcomeWeightCannotBeZero);
        }
        i = i + 1;
    }
    let mut stored_outcomes: Vec<StoredOutcome> = Vec::new();
    let mut returned: Vec<Token> = Vec::new();
    let mut rest = funds;
    let mut i: usize = 0;
    while i < n
        invariant
            i <= n,
            n == outcomes.len(),
            n <= 256,
            allocs == allocations(outcomes@),
            forall|j: int| 0 <= j < n ==> #[trigger] allocs[j] != 0,
            rest@ + sum_of(allocs.take(i as int)) == funds@,
            stored_outcomes.len() == i,
            returned.len() == i,
            forall|j: int|
                0 <= j < i ==> {
                    &&& (#[trigger] stored_outcomes[j]).id.0 == j
                    &&& stored_outcomes[j].label == outcomes[j].label
                    &&& stored_outcomes[j].pool_tokens@ == allocs[j]
                    &&& stored_outcomes[j].wallets == (if allocs[j] == funds@ {
                        0u32
                    } else {
                        1u32
                    })
                    &&& returned[j]@ == funds@ - allocs[j]
                },
        decreases n - i,
    {
        let initial_amount = outcomes[i].initial_amount;
        proof {
            lemma_sum_of_bounds(allocs, i as int);
            lemma_sum_of_bounds(allocs, i + 1);
        }
        rest = match rest.checked_sub(Collateral(initial_amount.0)) {
            Ok(v) => v,
            Err(_) => { return Err(Error::IncorrectFundsPerOutcome { provided: funds }); },
        };
        let id = match OutcomeId::try_from_index(i) {
            Ok(v) => v,
            Err(e) => { return Err(e); },
        };
        let back = match Token(funds.0).checked_sub(initial_amount) {
            Ok(v) => v,
            Err(_) => { return Err(Error::IncorrectFundsPerOutcome { provided: funds }); },
        };
        stored_outcomes.push(
            StoredOutcome {
                id,
                label: outcomes[i].label.clone(),
                pool_tokens: initial_amount,
                wallets: if back.is_zero() {
                    0
                } else {
                    1
                },
            },
        );
        returned.push(back);
        i = i + 1;
    }
    assert(allocs.take(n as int) == allocs);
    if !rest.is_zero() {
        return Err(Error::IncorrectFundsPerOutcome { provided: funds });
    }
    Ok(InitialOutcomes { outcomes: stored_outcomes, returned })
}

/// Why a market cannot be opened, if it cannot: withdrawals must stop after
/// the market opens and no later than deposits do, the coin that came must
/// be in the market's denomination, and the outcomes' pool balances must add
/// up to it.
pub open spec fn add_market_error(now: Timestamp, params: AddMarketParams, funds: Funds) -> Option<
    Error,
> {
    let allocs = allocations(params.outcomes@);
    if now.0 >= params.withdrawal_stop_date.0 {
        Some(
            Error::WithdrawalStopDateInPast {
                now,
                withdrawal_stop_date: params.withdrawal_stop_date,
            },
        )
    } else if params.withdrawal_stop_date.0 > params.deposit_stop_date.0 {
        Some(
            Error::DepositStopDateBeforeWithdrawalStop {
                withdrawal_stop_date: params.withdrawal_stop_date,
                deposit_stop_date: params.deposit_stop_date,
            },
        )
    } else if funds_error(funds, &params.denom) is Some {
        funds_error(funds, &params.denom)
    } else if allocation_error(allocs, Collateral(U256::of_nat(funds->amount as nat))) is Some {
        allocation_error(allocs, Collateral(U256::of_nat(funds->amount as nat)))
    } else if !fits(max_of(allocs) * 1_000_000) {
        Some(Error::Overflow)
    } else {
        None
    }
}

/// The books of a market are in order when it opens.
pub proof fn lemma_opens_sane(
    l: &Ledger,
    id: MarketId,
    now: Timestamp,
    params: AddMarketParams,
    funds: Funds,
)
    requires
        l.opens(id, params, funds),
        add_market_error(now, params, funds) is None,
    ensures
        l.wf(),
        l@.sane(now),
{
    let allocs = allocations(params.outcomes@);
    let n = allocs.len();
    let v = l@;
    let e = v.holders[0];
    lemma_of_nat(Collateral(U256::of_nat(funds->amount as nat)).0);
    assert(l.holders[0].info.outcomes.len() == n) by {
        assert(amounts(l.holders[0].info.outcomes@).len() == n);
    }
    lemma_single(v.holders, active());
    lemma_single(v.holders, shares_held());
    let k = lemma_max_of_attained(allocs);
    assert(max_of(allocs) * 1_000_000 > 0) by (nonlinear_arith)
        requires
            max_of(allocs) > 0,
    ;
    assert forall|i: int| 0 <= i < n implies total(v.holders, #[trigger] holding(i))
        == v.wallets[i] by {
        lemma_single(v.holders, holding(i));
        lemma_sum_of_bounds(allocs, i);
    }
    assert forall|i: int| 0 <= i < n implies v.pool.tokens[i] + total(
        v.holders,
        #[trigger] held(i),
    ) == v.pool.size by {
        lemma_single(v.holders, held(i));
        lemma_sum_of_bounds(allocs, i);
    }
}

/// The liquidity shares that a market starts with, all with the house: the
/// largest pool balance times a million.
pub open spec fn initial_shares(allocs: Seq<nat>) -> nat {
    max_of(allocs) * 1_000_000
}

/// Opens the market with the id `id`.
///
/// Each outcome starts with its balance in the pool. The house gets the rest
/// of the tokens minted for the collateral, and all liquidity shares.
pub fn add_market(id: MarketId, now: Timestamp, params: AddMarketParams, funds: Funds) -> (r:
    Result<Ledger, Error>)
    ensures
        match add_market_error(now, params, funds) {
            Some(e) => r is Err && r->Err_0 == e,
            None => r is Ok && r->Ok_0.wf() && r->Ok_0@.sane(now) && r->Ok_0.opens(id, params, funds),
        },
{
    if now.0 >= params.withdrawal_stop_date.0 {
        return Err(
            Error::WithdrawalStopDateInPast {
                now,
                withdrawal_stop_date: params.withdrawal_stop_date,
            },
        );
    }
    if params.withdrawal_stop_date.0 > params.deposit_stop_date.0 {
        return Err(
            Error::DepositStopDateBeforeWithdrawalStop {
                withdrawal_stop_date: params.withdrawal_stop_date,
                deposit_stop_date: params.deposit_stop_date,
            },
        );
    }
    let ghost allocs = allocations(params.outcomes@);
    let ghost asked = params;
    let ghost came = funds;
    let AddMarketParams {
        title,
        description,
        arbitrator,
        outcomes,
        denom,
        deposit_fee,
        withdrawal_fee,
        withdrawal_stop_date,
        deposit_stop_date,
        house,
    } = params;
    let collateral = match funds.require_funds(&denom) {
        Ok(v) => v,
        Err(e) => { return Err(e); },
    };
    proof {
        lemma_of_nat(collateral.0);
    }
    let InitialOutcomes { outcomes, returned } = match initial_outcomes(outcomes, collateral) {
        Ok(v) => v,
        Err(e) => { return Err(e); },
    };
    let n = outcomes.len();
    let mut market = StoredMarket {
        id,
        title,
        description,
        arbitrator,
        outcomes,
        denom,
        deposit_fee,
        withdrawal_fee,
        pool_size: collateral,
        deposit_stop_date,
        withdrawal_stop_date,
        winner: None,
        house,
        total_wallets: 1,
        lp_shares: LpShare::zero(),
    };
    assert(market.pool().tokens =~= allocs);
    // Initial LP share value is completely arbitrary. We take the largest token
    // allocation and multiply by a million, chosen arbitrarily to avoid both overflows
    // and rounding errors.
    let weight = market.numbers().weight();
    let lp_shares = match weight.0.checked_mul(U256::from_u128(1_000_000)) {
        Some(v) => LpShare(v),
        None => { return Err(Error::Overflow); },
    };
    market.lp_shares = lp_shares;
    let mut holders: Vec<Holder> = Vec::new();
    holders.push(
        Holder {
            addr: market.house.clone(),
            info: ShareInfo { outcomes: returned, shares: lp_shares, claimed_winnings: false },
        },
    );
    let ledger = Ledger { market, holders };
    proof {
        assert(amounts(ledger.holders[0].info.outcomes@) =~= Seq::new(
            allocs.len(),
            |i: int| (came->amount - allocs[i]) as nat,
        ));
        lemma_opens_sane(&ledger, id, now, asked, came);
    }
    Ok(ledger)
}

/// A copy of a list of token balances.
pub fn copy_tokens(tokens: &Vec<Token>) -> (r: Vec<Token>)
    ensures
        r@ == tokens@,
{
    let mut r: Vec<Token> = Vec::new();
    let mut i: usize = 0;
    while i < tokens.len()
        invariant
            i <= tokens.len(),
            r.len() == i,
            forall|j: int| 0 <= j < i ==> #[trigger] r[j] == tokens[j],
        decreases tokens.len() - i,
    {
        r.push(tokens[i]);
        i = i + 1;
    }
    r
}

/// `amount` tokens of the outcome at `outcome` and none of the others.
pub fn only_tokens(n: usize, outcome: usize, amount: Token) -> (r: Vec<Token>)
    ensures
        r.len() == n,
        amounts(r@) == only(n as nat, outcome as int, amount@),
{
    let mut r: Vec<Token> = Vec::new();
    let mut i: usize = 0;
    while i < n
        invariant
            i <= n,
            r.len() == i,
            forall|j: int|
                0 <= j < i ==> (#[trigger] r[j])@ == if j == outcome {
                    amount@
                } else {
                    0nat
                },
        decreases n - i,
    {
        if i == outcome {
            r.push(amount);
        } else {
            r.push(Token::zero());
        }
        i = i + 1;
    }
    r
}

impl LedgerView {
    /// The ledger after `rest` of collateral bought tokens of `outcome` for
    /// the wallet `sender`.
    pub open spec fn bet(self, sender: Seq<char>, outcome: OutcomeId, rest: nat, liquidity: Decimal)
        -> Result<LedgerView, Error>
        recommends
            outcome.0 < self.pool.tokens.len(),
    {
        let liq = scaled_floor(rest, liquidity@);
        match buy_error(self.pool, outcome.0 as int, rest, liquidity) {
            Some(e) => Err(e),
            None => LedgerView {
                pool: after_buy(self.pool, outcome.0 as int, rest, liq),
                ..self
            }.credit(
                sender,
                minted_shares(self.pool, liq),
                only(
                    self.pool.tokens.len(),
                    outcome.0 as int,
                    tokens_bought(self.pool, outcome.0 as int, rest, liq),
                ),
            ),
        }
    }
}

impl Ledger {
    /// Whether this is the ledger that the market `params` opens with, under
    /// the id `id` and with the coin `funds`: the outcomes with their pool
    /// balances, the collateral, no winner, and the house as the one wallet,
    /// with all shares and the tokens that are not in the pool.
    pub open spec fn opens(&self, id: MarketId, params: AddMarketParams, funds: Funds) -> bool {
        let allocs = allocations(params.outcomes@);
        let amount = funds->amount as nat;
        &&& self.market.id == id
        &&& self.market.title == params.title
        &&& self.market.description == params.description
        &&& self.market.arbitrator == params.arbitrator
        &&& self.market.denom == params.denom
        &&& self.market.deposit_fee == params.deposit_fee
        &&& self.market.withdrawal_fee == params.withdrawal_fee
        &&& self.market.deposit_stop_date == params.deposit_stop_date
        &&& self.market.withdrawal_stop_date == params.withdrawal_stop_date
        &&& self.market.house == params.house
        &&& self.market.winner is None
        &&& self.market.total_wallets == 1
        &&& self.market.pool_size@ == amount
        &&& self.market.lp_shares@ == initial_shares(allocs)
        &&& self.market.outcomes.len() == allocs.len()
        &&& forall|i: int|
            0 <= i < allocs.len() ==> {
                &&& (#[trigger] self.market.outcomes[i]).id.0 == i
                &&& self.market.outcomes[i].label == params.outcomes[i].label
                &&& self.market.outcomes[i].pool_tokens@ == allocs[i]
                &&& self.market.outcomes[i].wallets == (if allocs[i] == amount {
                    0u32
                } else {
                    1u32
                })
            }
        &&& self.holders.len() == 1
        &&& self.holders[0].addr@ == params.house@
        &&& self.holders[0].info@ == (PositionView {
            tokens: Seq::new(allocs.len(), |i: int| (amount - allocs[i]) as nat),
            shares: initial_shares(allocs),
            claimed: false,
        })
    }

    /// The error for an operation outside its time window.
    pub open spec fn window_closed(&self, now: Timestamp, cutoff: Timestamp) -> Error {
        Error::WindowClosed { id: self.market.id, now, cutoff }
    }

    /// The fee on a deposit of `amount`, rounded up.
    pub open spec fn deposit_fee(&self, amount: nat) -> nat {
        scaled_ceil(amount, self.market.deposit_fee@)
    }

    /// The ledger after a deposit on `outcome` by the wallet `sender`, or why
    /// the deposit is refused.
    ///
    /// Deposits are open before the deposit stop date. The fee goes to the
    /// pool as liquidity of the house. The rest buys tokens of the outcome.
    pub open spec fn after_deposit(
        &self,
        now: Timestamp,
        sender: Seq<char>,
        outcome: OutcomeId,
        funds: Funds,
        liquidity: Decimal,
    ) -> Result<LedgerView, Error> {
        if now.0 >= self.market.deposit_stop_date.0 {
            Err(self.window_closed(now, self.market.deposit_stop_date))
        } else if funds_error(funds, &self.market.denom) is Some {
            Err(funds_error(funds, &self.market.denom)->0)
        } else if !scaled_fits(funds->amount as nat, self.market.deposit_fee@) {
            Err(Error::Overflow)
        } else {
            let amount = funds->amount as nat;
            let fee = self.deposit_fee(amount);
            match self@.provide(self.market.house@, fee) {
                Err(e) => Err(e),
                Ok(l) => if fee > amount {
                    Err(Error::Underflow)
                } else if outcome.0 >= self.market.outcomes.len() {
                    Err(self.market.invalid_outcome(outcome))
                } else {
                    l.bet(sender, outcome, (amount - fee) as nat, liquidity)
                },
            }
        }
    }

    /// The ledger after the wallet `sender` provided liquidity, or why that
    /// is refused. Liquidity can be provided before the deposit stop date.
    pub open spec fn after_provide(&self, now: Timestamp, sender: Seq<char>, funds: Funds) -> Result<
        LedgerView,
        Error,
    > {
        if now.0 >= self.market.deposit_stop_date.0 {
            Err(self.window_closed(now, self.market.deposit_stop_date))
        } else if funds_error(funds, &self.market.denom) is Some {
            Err(funds_error(funds, &self.market.denom)->0)
        } else {
            self@.provide(sender, funds->amount as nat)
        }
    }

    /// Provide liquidity to the pool with the coin that came.
    ///
    /// Returns what was minted: shares, and the tokens that did not stay in
    /// the pool. On an error the ledger is left as it was.
    pub fn provide(&mut self, now: Timestamp, sender: &String, funds: Funds) -> (r: Result<
        AddLiquidity,
        Error,
    >)
        requires
            old(self).wf(),
        ensures
            final(self).wf(),
            old(self)@.sane(now) ==> final(self)@.sane(now),
            match old(self).after_provide(now, sender@, funds) {
                Err(e) => r is Err && r->Err_0 == e && *final(self) == *old(self),
                Ok(l) => r is Ok && final(self)@ == l && final(self).market.same_setup(
                    &old(self).market,
                ) && r->Ok_0.is_for(old(self).market.pool(), funds->amount as nat),
            },
    {
        if now.0 >= self.market.deposit_stop_date.0 {
            return Err(
                Error::WindowClosed {
                    id: self.market.id,
                    now,
                    cutoff: self.market.deposit_stop_date,
                },
            );
        }
        let deposit_amount = match funds.require_funds(&self.market.denom) {
            Ok(v) => v,
            Err(e) => { return Err(e); },
        };
        let n = self.market.outcomes.len();
        let (pool, minted) = match self.market.numbers().add_liquidity(deposit_amount) {
            Ok(v) => v,
            Err(e) => { return Err(e); },
        };
        assert(amounts(minted.returned_to_user@).len() == n);
        let receipt = AddLiquidity {
            lp: minted.lp,
            returned_to_user: copy_tokens(&minted.returned_to_user),
            added_to_pool: copy_tokens(&minted.added_to_pool),
        };
        match minted.assign_to(self, sender) {
            Ok(_) => {},
            Err(e) => { return Err(e); },
        }
        let ghost mid = *self;
        self.market.set_numbers(&pool);
        proof {
            let l = old(self).after_provide(now, sender@, funds)->Ok_0;
            assert(self@.outcome_ids =~= l.outcome_ids);
            assert(self@.wallets =~= mid@.wallets);
            if old(self)@.sane(now) {
                lemma_provision_keeps_sane(&*old(self), now, sender@, funds);
            }
        }
        let minted = receipt;
        Ok(minted)
    }

    /// The ledger after the wallet `sender` declared `outcome` the winner, or
    /// why that is refused.
    ///
    /// The winner is declared once, by the arbitrator, and not before the
    /// deposit stop date.
    pub open spec fn after_set_winner(&self, now: Timestamp, sender: Seq<char>, outcome: OutcomeId)
        -> Result<LedgerView, Error> {
        if now.0 < self.market.deposit_stop_date.0 {
            Err(self.window_closed(now, self.market.deposit_stop_date))
        } else if sender != self.market.arbitrator@ {
            Err(Error::Unauthorized)
        } else if self.market.winner is Some {
            Err(Error::WinnerAlreadySet { id: self.market.id })
        } else if outcome.0 >= self.market.outcomes.len() {
            Err(self.market.invalid_outcome(outcome))
        } else {
            Ok(LedgerView { winner: Some(outcome), ..self@ })
        }
    }

    /// Declare the winner of the market.
    ///
    /// On an error the ledger is left as it was.
    pub fn set_winner(&mut self, now: Timestamp, sender: &String, outcome: OutcomeId) -> (r: Result<
        (),
        Error,
    >)
        ensures
            final(self).wf() == old(self).wf(),
            old(self)@.sane(now) ==> final(self)@.sane(now),
            match old(self).after_set_winner(now, sender@, outcome) {
                Err(e) => r is Err && r->Err_0 == e && *final(self) == *old(self),
                Ok(l) => r is Ok && final(self)@ == l && final(self).holders == old(self).holders
                    && final(self).market.same_but_winner(&old(self).market),
            },
    {
        if now.0 < self.market.deposit_stop_date.0 {
            return Err(
                Error::WindowClosed {
                    id: self.market.id,
                    now,
                    cutoff: self.market.deposit_stop_date,
                },
            );
        }
        if *sender != self.market.arbitrator {
            return Err(Error::Unauthorized);
        }
        if self.market.winner.is_some() {
            return Err(Error::WinnerAlreadySet { id: self.market.id });
        }
        // Force a check that it's a valid outcome
        match self.market.get_outcome(outcome) {
            Ok(_) => {},
            Err(e) => { return Err(e); },
        }
        self.market.winner = Some(outcome);
        proof {
            let l = old(self).after_set_winner(now, sender@, outcome)->Ok_0;
            if old(self)@.sane(now) {
                lemma_set_winner_keeps_sane(&*old(self), now, sender@, outcome);
            }
        }
        Ok(())
    }

    /// The fee on a withdrawal of `funds` of collateral, rounded up.
    pub open spec fn withdrawal_fee(&self, funds: nat) -> nat {
        scaled_ceil(funds, self.market.withdrawal_fee@)
    }

    /// The collateral that a sale of `tokens` of `outcome` frees, on a
    /// market of two outcomes.
    pub open spec fn freed(&self, outcome: OutcomeId, tokens: Token) -> nat {
        sets_redeemed(
            self.market.pool().tokens[outcome.0 as int],
            self.market.pool().tokens[1 - outcome.0],
            tokens@,
            self.market.root_for(outcome, tokens),
        )
    }

    /// Why the wallet `sender` cannot give up `tokens` of `outcome`, if it
    /// cannot: withdrawals are open before the withdrawal stop date, and
    /// the wallet must hold the tokens.
    pub open spec fn withdraw_refused(
        &self,
        now: Timestamp,
        sender: Seq<char>,
        outcome: OutcomeId,
        tokens: Token,
    ) -> Option<Error> {
        let id = self.market.id;
        if now.0 >= self.market.withdrawal_stop_date.0 {
            Some(self.window_closed(now, self.market.withdrawal_stop_date))
        } else {
            match find(self@.holders, sender) {
                None => Some(Error::NoPositionsOnMarket { id }),
                Some(k) => {
                    let held = self.holders[k].info.outcomes;
                    if outcome.0 >= held.len() {
                        Some(Error::InvalidOutcome { id, outcome_count: held.len(), outcome })
                    } else if held[outcome.0 as int]@ == 0 {
                        Some(Error::NoTokensFound { id, outcome })
                    } else if held[outcome.0 as int]@ < tokens@ {
                        Some(
                            Error::InsufficientTokens {
                                id,
                                outcome,
                                requested: tokens,
                                available: held[outcome.0 as int],
                            },
                        )
                    } else if self.market.outcomes.len() != 2 {
                        Some(
                            Error::UnsupportedOutcomeCount {
                                total_outcomes: self.market.outcomes.len(),
                            },
                        )
                    } else {
                        None
                    }
                },
            }
        }
    }

    /// The ledger after the wallet `sender` gave up `tokens` of `outcome`, or
    /// why that is refused.
    ///
    /// The tokens are sold to the pool and the full sets that result are
    /// redeemed. What is left over goes back to the wallet. A fee on the
    /// collateral freed goes to the pool as liquidity of the house.
    pub open spec fn after_withdraw(
        &self,
        now: Timestamp,
        sender: Seq<char>,
        outcome: OutcomeId,
        tokens: Token,
    ) -> Result<LedgerView, Error> {
        if self.withdraw_refused(now, sender, outcome, tokens) is Some {
            Err(self.withdraw_refused(now, sender, outcome, tokens)->0)
        } else {
            let o = outcome.0 as int;
            let pool = self.market.pool();
            let root = self.market.root_for(outcome, tokens);
            let before = position_of(self@.holders, sender, 2);
            let mid = debited(before, o, tokens@);
            let returned = sell_returned(pool, o, tokens@, root);
            let funds = self.freed(outcome, tokens);
            let fee = self.withdrawal_fee(funds);
            if sell_error(pool, o, tokens@, root) is Some {
                Err(sell_error(pool, o, tokens@, root)->0)
            } else if !credit_fits(mid, 0, returned) {
                Err(Error::Overflow)
            } else {
                match (LedgerView { pool: after_sell(pool, o, tokens@, root), ..self@ }).replace(
                    sender,
                    before,
                    credited(mid, 0, returned),
                ) {
                    Err(e) => Err(e),
                    Ok(l) => if !scaled_fits(funds, self.market.withdrawal_fee@) {
                        Err(Error::Overflow)
                    } else {
                        match l.provide(self.market.house@, fee) {
                            Err(e) => Err(e),
                            Ok(l) => if fee > funds {
                                Err(Error::Underflow)
                            } else if funds - fee > u128::MAX {
                                Err(Error::ConversionOverflow)
                            } else {
                                Ok(l)
                            },
                        }
                    },
                }
            }
        }
    }

    /// Withdraw funds bet on an outcome.
    ///
    /// On an error the ledger is left as it was.
    pub fn withdraw(&mut self, now: Timestamp, sender: &String, outcome: OutcomeId, tokens: Token)
        -> (r: Result<Withdrawn, Error>)
        requires
            old(self).wf(),
        ensures
            final(self).wf(),
            old(self)@.sane(now) ==> final(self)@.sane(now),
            match old(self).after_withdraw(now, sender@, outcome, tokens) {
                Err(e) => r is Err && r->Err_0 == e && *final(self) == *old(self),
                Ok(l) => r is Ok && final(self)@ == l && final(self).market.same_setup(
                    &old(self).market,
                ) && r->Ok_0.tokens == tokens && r->Ok_0.fee@ == old(self).withdrawal_fee(
                    old(self).freed(outcome, tokens),
                ) && r->Ok_0.withdrawal == old(self).freed(outcome, tokens) - r->Ok_0.fee@,
            },
    {
        let id = self.market.id;
        if now.0 >= self.market.withdrawal_stop_date.0 {
            return Err(
                Error::WindowClosed { id, now, cutoff: self.market.withdrawal_stop_date },
            );
        }
        let ghost es = self@.holders;
        let k = match self.lookup(sender) {
            Some(k) => k,
            None => { return Err(Error::NoPositionsOnMarket { id }); },
        };
        let before = self.holders[k].info.copy();
        let o = outcome.usize();
        if o >= before.outcomes.len() {
            return Err(
                Error::InvalidOutcome { id, outcome_count: before.outcomes.len(), outcome },
            );
        }
        let user_tokens = self.holders[k].info.outcomes[o];
        if user_tokens.is_zero() {
            return Err(Error::NoTokensFound { id, outcome });
        }
        if user_tokens.0.lt(&tokens.0) {
            return Err(
                Error::InsufficientTokens {
                    id,
                    outcome,
                    requested: tokens,
                    available: user_tokens,
                },
            );
        }
        let n = self.market.outcomes.len();
        if n != 2 {
            return Err(Error::UnsupportedOutcomeCount { total_outcomes: n });
        }
        let pool0 = self.market.numbers();
        let counts0 = self.market.counts();
        let (pool1, sold) = match pool0.sell(o, tokens) {
            Ok(v) => v,
            Err(e) => { return Err(e); },
        };
        let mut mid = before.copy();
        let kept = match user_tokens.checked_sub(tokens) {
            Ok(v) => v,
            Err(e) => { return Err(e); },
        };
        mid.outcomes[o] = kept;
        assert(mid@.tokens =~= debited(before@, o as int, tokens@).tokens);
        assert(amounts(sold.returned@).len() == 2);
        let after = match mid.credited(LpShare::zero(), &sold.returned) {
            Ok(v) => v,
            Err(e) => { return Err(e); },
        };
        let counts1 = match counts0.moved(&before, &after) {
            Ok(v) => v,
            Err(e) => { return Err(e); },
        };
        let fee = match sold.funds.mul_ceil(self.market.withdrawal_fee) {
            Ok(v) => v,
            Err(e) => { return Err(e); },
        };
        let (pool2, minted) = match pool1.add_liquidity(fee) {
            Ok(v) => v,
            Err(e) => { return Err(e); },
        };
        proof {
            lemma_position_after_put(es, sender@, after@, self.market.house@, 2);
        }
        let house_before = if self.market.house == *sender {
            after.copy()
        } else {
            self.position(&self.market.house)
        };
        assert(amounts(minted.returned_to_user@).len() == 2);
        let house_after = match house_before.credited(minted.lp, &minted.returned_to_user) {
            Ok(v) => v,
            Err(e) => { return Err(e); },
        };
        let counts2 = match counts1.moved(&house_before, &house_after) {
            Ok(v) => v,
            Err(e) => { return Err(e); },
        };
        let funds = match sold.funds.checked_sub(fee) {
            Ok(v) => v,
            Err(e) => { return Err(e); },
        };
        let withdrawal = match funds.0.to_u128() {
            Some(v) => v,
            None => { return Err(Error::ConversionOverflow); },
        };
        self.market.settle(&pool2, &counts2);
        let house = self.market.house.clone();
        after.save(self, sender);
        house_after.save(self, &house);
        proof {
            let l = old(self).after_withdraw(now, sender@, outcome, tokens)->Ok_0;
            assert(self@.outcome_ids =~= l.outcome_ids);
            if old(self)@.sane(now) {
                lemma_withdraw_keeps_sane(&*old(self), now, sender@, outcome, tokens);
            }
        }
        Ok(Withdrawn { tokens, fee, withdrawal })
    }

    /// Why the wallet `sender` cannot collect winnings, if it cannot.
    pub open spec fn collect_error(&self, sender: Seq<char>) -> Option<Error> {
        let id = self.market.id;
        if self.market.winner is None {
            Some(Error::NoWinnerSet { id })
        } else if find(self@.holders, sender) is None {
            Some(Error::NoPositionsOnMarket { id })
        } else {
            let winner = self.market.winner->0;
            let p = position_of(self@.holders, sender, 0);
            if p.claimed {
                Some(Error::AlreadyClaimedWinnings { id })
            } else if entitlement_error(p, self.market.pool(), id, winner) is Some {
                entitlement_error(p, self.market.pool(), id, winner)
            } else if entitlement(p, self.market.pool(), winner) == 0 {
                Some(Error::NoTokensFound { id, outcome: winner })
            } else if entitlement(p, self.market.pool(), winner) > u128::MAX {
                Some(Error::ConversionOverflow)
            } else {
                None
            }
        }
    }

    /// Collect winnings from the market: one unit of collateral for each
    /// token of the winner that the sender is entitled to, once.
    ///
    /// On an error the ledger is left as it was.
    pub fn collect(&mut self, sender: &String) -> (r: Result<Collected, Error>)
        requires
            old(self).wf(),
        ensures
            final(self).wf(),
            forall|now: Timestamp| old(self)@.sane(now) ==> #[trigger] final(self)@.sane(now),
            match old(self).collect_error(sender@) {
                Some(e) => r is Err && r->Err_0 == e && *final(self) == *old(self),
                None => r is Ok && final(self).market == old(self).market && final(self)@.holders
                    == put(
                    old(self)@.holders,
                    sender@,
                    claimed(position_of(old(self)@.holders, sender@, 0)),
                ) && r->Ok_0.winner == old(self).market.winner->0 && r->Ok_0.tokens@ == entitlement(
                    position_of(old(self)@.holders, sender@, 0),
                    old(self).market.pool(),
                    old(self).market.winner->0,
                ) && r->Ok_0.winnings == r->Ok_0.tokens@,
            },
    {
        let id = self.market.id;
        let winner = match self.market.winner {
            Some(w) => w,
            None => { return Err(Error::NoWinnerSet { id }); },
        };
        let k = match self.lookup(sender) {
            Some(k) => k,
            None => { return Err(Error::NoPositionsOnMarket { id }); },
        };
        let mut share_info = self.holders[k].info.copy();
        if share_info.claimed_winnings {
            return Err(Error::AlreadyClaimedWinnings { id });
        }
        let tokens = match share_info.get_outcome(&self.market, winner) {
            Ok(v) => v,
            Err(e) => { return Err(e); },
        };
        if tokens.is_zero() {
            return Err(Error::NoTokensFound { id, outcome: winner });
        }
        let winnings = match tokens.0.to_u128() {
            Some(v) => v,
            None => { return Err(Error::ConversionOverflow); },
        };
        share_info.claimed_winnings = true;
        share_info.save(self, sender);
        proof {
            assert forall|now: Timestamp| old(self)@.sane(now) implies #[trigger] self@.sane(
                now,
            ) by {
                lemma_collect_keeps_sane(&*old(self), now, sender@);
            }
        }
        Ok(Collected { winner, tokens, winnings })
    }

    /// The pool that a deposit of `amount` buys from: the market's, with the
    /// fee in it.
    pub open spec fn pool_after_fee(&self, amount: nat) -> PoolView {
        with_liquidity(self.market.pool(), self.deposit_fee(amount))
    }

    /// Place a bet on the given outcome with the coin that came.
    ///
    /// On an error the ledger is left as it was.
    pub fn deposit(
        &mut self,
        now: Timestamp,
        sender: &String,
        outcome: OutcomeId,
        funds: Funds,
        liquidity: Decimal,
    ) -> (r: Result<Deposited, Error>)
        requires
            old(self).wf(),
        ensures
            final(self).wf(),
            old(self)@.sane(now) ==> final(self)@.sane(now),
            match old(self).after_deposit(now, sender@, outcome, funds, liquidity) {
                Err(e) => r is Err && r->Err_0 == e && *final(self) == *old(self),
                Ok(l) => r is Ok && final(self)@ == l && final(self).market.same_setup(
                    &old(self).market,
                ) && r->Ok_0.deposit_amount@ == funds->amount
                    && r->Ok_0.fee@ == old(self).deposit_fee(funds->amount as nat)
                    && r->Ok_0.tokens@ == tokens_bought(
                    old(self).pool_after_fee(funds->amount as nat),
                    outcome.0 as int,
                    (funds->amount - r->Ok_0.fee@) as nat,
                    scaled_floor((funds->amount - r->Ok_0.fee@) as nat, liquidity@),
                ) && r->Ok_0.lp@ == minted_shares(
                    old(self).pool_after_fee(funds->amount as nat),
                    scaled_floor((funds->amount - r->Ok_0.fee@) as nat, liquidity@),
                ),
            },
    {
        if now.0 >= self.market.deposit_stop_date.0 {
            return Err(
                Error::WindowClosed {
                    id: self.market.id,
                    now,
                    cutoff: self.market.deposit_stop_date,
                },
            );
        }
        let deposit_amount = match funds.require_funds(&self.market.denom) {
            Ok(v) => v,
            Err(e) => { return Err(e); },
        };
        let fee = match deposit_amount.mul_ceil(self.market.deposit_fee) {
            Ok(v) => v,
            Err(e) => { return Err(e); },
        };
        let ghost es = self@.holders;
        let n = self.market.outcomes.len();
        let pool0 = self.market.numbers();
        let counts0 = self.market.counts();
        let (pool1, minted) = match pool0.add_liquidity(fee) {
            Ok(v) => v,
            Err(e) => { return Err(e); },
        };
        assert(amounts(minted.returned_to_user@).len() == n);
        let house_before = self.position(&self.market.house);
        let house_after = match house_before.credited(minted.lp, &minted.returned_to_user) {
            Ok(v) => v,
            Err(e) => { return Err(e); },
        };
        let counts1 = match counts0.moved(&house_before, &house_after) {
            Ok(v) => v,
            Err(e) => { return Err(e); },
        };
        let rest = match deposit_amount.checked_sub(fee) {
            Ok(v) => v,
            Err(e) => { return Err(e); },
        };
        if outcome.usize() >= n {
            return Err(Error::InvalidOutcome { id: self.market.id, outcome_count: n, outcome });
        }
        let (pool2, bought) = match pool1.buy(outcome.usize(), rest, liquidity) {
            Ok(v) => v,
            Err(e) => { return Err(e); },
        };
        proof {
            lemma_position_after_put(es, self.market.house@, house_after@, sender@, n as nat);
        }
        let sender_before = if *sender == self.market.house {
            house_after.copy()
        } else {
            self.position(sender)
        };
        let gained = only_tokens(n, outcome.usize(), bought.tokens);
        let sender_after = match sender_before.credited(bought.lp, &gained) {
            Ok(v) => v,
            Err(e) => { return Err(e); },
        };
        let counts2 = match counts1.moved(&sender_before, &sender_after) {
            Ok(v) => v,
            Err(e) => { return Err(e); },
        };
        self.market.settle(&pool2, &counts2);
        let house = self.market.house.clone();
        house_after.save(self, &house);
        sender_after.save(self, sender);
        proof {
            let l = old(self).after_deposit(now, sender@, outcome, funds, liquidity)->Ok_0;
            assert(self@.outcome_ids =~= l.outcome_ids);
            if old(self)@.sane(now) {
                lemma_deposit_keeps_sane(&*old(self), now, sender@, outcome, funds, liquidity);
            }
        }
        Ok(Deposited { tokens: bought.tokens, lp: bought.lp, deposit_amount, fee })
    }
}

} // verus!
