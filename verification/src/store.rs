//! All markets of one contract, its admin, and the dispatch of messages.

use crate::api::{ExecuteMsg, GlobalInfo, MessageInfo, QueryMsg};
use crate::cpmm::{minted_shares, tokens_bought, AddLiquidity};
use crate::error::Error;
use crate::execute::{add_market, add_market_error, claimed, Collected, Deposited, Withdrawn};
use crate::ledger::{position_of, put, Ledger};
use crate::state::{entitlement, ShareInfo, StoredMarket};
use crate::types::{scaled_floor, MarketId, OutcomeId, Timestamp};
use crate::util::{funds_of, unexpected, Funds};
use vstd::prelude::*;

verus! {

/// What a contract keeps: who administers it, and its markets in the order
/// in which they were opened.
#[derive(Debug)]
pub struct State {
    pub admin: String,
    /// The wallet that may take over as admin, if one is appointed.
    pub appointed_admin: Option<String>,
    /// The id of the market opened last.
    pub last_market_id: Option<MarketId>,
    pub ledgers: Vec<Ledger>,
}

/// What came of a message.
#[derive(Debug)]
pub enum Response {
    AddMarket { id: MarketId },
    Provide { id: MarketId, deposit_amount: u128, minted: AddLiquidity },
    Deposit { id: MarketId, outcome: OutcomeId, deposited: Deposited },
    Withdraw { id: MarketId, outcome: OutcomeId, withdrawn: Withdrawn },
    SetWinner { id: MarketId, outcome: OutcomeId },
    Collect { id: MarketId, collected: Collected },
    AppointAdmin { addr: String },
    AcceptAdmin { addr: String },
}

/// The index of the first ledger of the market with the id `id`, if there is one.
pub open spec fn market_index(ledgers: Seq<Ledger>, id: MarketId) -> Option<int>
    decreases ledgers.len(),
{
    if ledgers.len() == 0 {
        None
    } else {
        match market_index(ledgers.drop_last(), id) {
            Some(i) => Some(i),
            None => if ledgers.last().market.id == id {
                Some(ledgers.len() - 1)
            } else {
                None
            },
        }
    }
}

/// What `market_index` finds is a ledger of the market.
pub proof fn lemma_market_index(ledgers: Seq<Ledger>, id: MarketId)
    ensures
        match market_index(ledgers, id) {
            Some(i) => 0 <= i < ledgers.len() && ledgers[i].market.id == id,
            None => true,
        },
    decreases ledgers.len(),
{
    if ledgers.len() > 0 {
        lemma_market_index(ledgers.drop_last(), id);
    }
}

proof fn lemma_market_index_prefix(ledgers: Seq<Ledger>, id: MarketId, k: int)
    requires
        0 <= k <= ledgers.len(),
    ensures
        market_index(ledgers.take(k), id) is Some ==> market_index(ledgers, id) == market_index(
            ledgers.take(k),
            id,
        ),
    decreases ledgers.len(),
{
    if k == ledgers.len() {
        assert(ledgers.take(k) == ledgers);
    } else {
        lemma_market_index_prefix(ledgers.drop_last(), id, k);
        assert(ledgers.drop_last().take(k) == ledgers.take(k));
    }
}

/// The id that the next market gets: 1, or one more than the last.
pub open spec fn next_market_id(last: Option<MarketId>) -> int {
    match last {
        Some(id) => id.0 + 1,
        None => 1,
    }
}

impl State {
    /// Whether every ledger is well-formed.
    pub open spec fn wf(&self) -> bool {
        forall|i: int| 0 <= i < self.ledgers.len() ==> (#[trigger] self.ledgers[i]).wf()
    }

    /// Whether the books of every market are in order at the time `now`,
    /// and the markets are numbered from 1 in the order in which they were
    /// opened.
    pub open spec fn sane(&self, now: Timestamp) -> bool {
        &&& forall|i: int| 0 <= i < self.ledgers.len() ==> (#[trigger] self.ledgers[i])@.sane(now)
        &&& forall|i: int|
            0 <= i < self.ledgers.len() ==> (#[trigger] self.ledgers[i]).market.id.0 == i + 1
        &&& self.ledgers.len() <= u32::MAX
        &&& next_market_id(self.last_market_id) == self.ledgers.len() + 1
    }

    /// The index of the ledger of the market with the id `id`;
    /// `MarketNotFound` when there is none.
    pub fn find_market(&self, id: MarketId) -> (r: Result<usize, Error>)
        ensures
            match market_index(self.ledgers@, id) {
                Some(i) => r is Ok && r->Ok_0 == i && i < self.ledgers.len(),
                None => r is Err && r->Err_0 == (Error::MarketNotFound { id }),
            },
    {
        let mut i: usize = 0;
        while i < self.ledgers.len()
            invariant
                i <= self.ledgers.len(),
                market_index(self.ledgers@.take(i as int), id) is None,
            decreases self.ledgers.len() - i,
        {
            proof {
                assert(self.ledgers@.take(i + 1).drop_last() == self.ledgers@.take(i as int));
                lemma_market_index_prefix(self.ledgers@, id, i + 1);
            }
            if self.ledgers[i].market.id.0 == id.0 {
                return Ok(i);
            }
            i = i + 1;
        }
        assert(self.ledgers@.take(self.ledgers.len() as int) == self.ledgers@);
        Err(Error::MarketNotFound { id })
    }

    /// The id of the market opened last, and the admin.
    pub fn global_info(&self) -> (r: GlobalInfo)
        ensures
            r.latest_market_id == self.last_market_id,
            r.admin == self.admin,
    {
        GlobalInfo { latest_market_id: self.last_market_id, admin: self.admin.clone() }
    }

    /// The market with the id `id`; `MarketNotFound` when there is none.
    pub fn market(&self, id: MarketId) -> (r: Result<&StoredMarket, Error>)
        ensures
            match market_index(self.ledgers@, id) {
                Some(i) => r is Ok && *r->Ok_0 == self.ledgers[i].market,
                None => r is Err && r->Err_0 == (Error::MarketNotFound { id }),
            },
    {
        match self.find_market(id) {
            Ok(i) => Ok(&self.ledgers[i].market),
            Err(e) => Err(e),
        }
    }

    /// The position of the wallet `addr` in the market with the id `id`:
    /// the one kept for it, or the empty one. `MarketNotFound` when there
    /// is no such market.
    pub fn positions(&self, id: MarketId, addr: &String) -> (r: Result<ShareInfo, Error>)
        requires
            self.wf(),
        ensures
            match market_index(self.ledgers@, id) {
                Some(i) => r is Ok && r->Ok_0@ == position_of(
                    self.ledgers[i]@.holders,
                    addr@,
                    self.ledgers[i].market.outcomes.len() as nat,
                ),
                None => r is Err && r->Err_0 == (Error::MarketNotFound { id }),
            },
    {
        match self.find_market(id) {
            Ok(i) => Ok(self.ledgers[i].position(addr)),
            Err(e) => Err(e),
        }
    }
}

impl State {
    /// Whether the state is as `old` in all but the ledger at index `i`.
    pub open spec fn same_but(&self, old: &State, i: int) -> bool {
        &&& self.admin == old.admin
        &&& self.appointed_admin == old.appointed_admin
        &&& self.last_market_id == old.last_market_id
        &&& self.ledgers.len() == old.ledgers.len()
        &&& forall|j: int|
            0 <= j < self.ledgers.len() && j != i ==> #[trigger] self.ledgers[j] == old.ledgers[j]
    }

    /// Whether the state is as `old`.
    pub open spec fn same_as(&self, old: &State) -> bool {
        &&& self.admin == old.admin
        &&& self.appointed_admin == old.appointed_admin
        &&& self.last_market_id == old.last_market_id
        &&& self.ledgers@ == old.ledgers@
    }

    /// Why the message is refused, if it is.
    ///
    /// A message with more than one coin is refused. Opening a market and
    /// appointing an admin are for the admin. A message for a market must
    /// name one that there is. Only deposits, liquidity and a new market
    /// take a coin.
    pub open spec fn refuses(&self, now: Timestamp, info: &MessageInfo, msg: ExecuteMsg) -> Option<
        Error,
    > {
        match funds_of(info) {
            Err(e) => Some(e),
            Ok(funds) => match msg {
                ExecuteMsg::AddMarket { params } => if self.admin@ != info.sender@ {
                    Some(Error::Unauthorized)
                } else if next_market_id(self.last_market_id) > u32::MAX {
                    Some(Error::Overflow)
                } else {
                    add_market_error(now, params, funds)
                },
                ExecuteMsg::Provide { id } => match market_index(self.ledgers@, id) {
                    None => Some(Error::MarketNotFound { id }),
                    Some(i) => match self.ledgers[i].after_provide(now, info.sender@, funds) {
                        Err(e) => Some(e),
                        Ok(_) => None,
                    },
                },
                ExecuteMsg::Deposit { id, outcome, liquidity } => match market_index(
                    self.ledgers@,
                    id,
                ) {
                    None => Some(Error::MarketNotFound { id }),
                    Some(i) => match self.ledgers[i].after_deposit(
                        now,
                        info.sender@,
                        outcome,
                        funds,
                        liquidity,
                    ) {
                        Err(e) => Some(e),
                        Ok(_) => None,
                    },
                },
                ExecuteMsg::Withdraw { id, outcome, tokens } => if unexpected(funds) is Some {
                    unexpected(funds)
                } else {
                    match market_index(self.ledgers@, id) {
                        None => Some(Error::MarketNotFound { id }),
                        Some(i) => match self.ledgers[i].after_withdraw(
                            now,
                            info.sender@,
                            outcome,
                            tokens,
                        ) {
                            Err(e) => Some(e),
                            Ok(_) => None,
                        },
                    }
                },
                ExecuteMsg::SetWinner { id, outcome } => if unexpected(funds) is Some {
                    unexpected(funds)
                } else {
                    match market_index(self.ledgers@, id) {
                        None => Some(Error::MarketNotFound { id }),
                        Some(i) => match self.ledgers[i].after_set_winner(
                            now,
                            info.sender@,
                            outcome,
                        ) {
                            Err(e) => Some(e),
                            Ok(_) => None,
                        },
                    }
                },
                ExecuteMsg::Collect { id } => if unexpected(funds) is Some {
                    unexpected(funds)
                } else {
                    match market_index(self.ledgers@, id) {
                        None => Some(Error::MarketNotFound { id }),
                        Some(i) => self.ledgers[i].collect_error(info.sender@),
                    }
                },
                ExecuteMsg::AppointAdmin { addr } => if unexpected(funds) is Some {
                    unexpected(funds)
                } else if self.admin@ != info.sender@ {
                    Some(Error::Unauthorized)
                } else {
                    None
                },
                ExecuteMsg::AcceptAdmin {  } => if unexpected(funds) is Some {
                    unexpected(funds)
                } else if self.appointed_admin is None {
                    Some(Error::NoAppointedAdmin)
                } else if self.appointed_admin->0@ != info.sender@ {
                    Some(Error::NotAppointedAdmin)
                } else {
                    None
                },
            },
        }
    }

    /// Whether the state is what the message makes of `old`, and `r` what
    /// comes of it, for a message that is not refused.
    pub open spec fn follows(
        &self,
        old: &State,
        r: Response,
        now: Timestamp,
        info: &MessageInfo,
        msg: ExecuteMsg,
    ) -> bool {
        let funds = funds_of(info)->Ok_0;
        let sender = info.sender@;
        match msg {
            ExecuteMsg::AddMarket { params } => {
                let id = MarketId(next_market_id(old.last_market_id) as u32);
                &&& self.admin == old.admin
                &&& self.appointed_admin == old.appointed_admin
                &&& self.last_market_id == Some(id)
                &&& self.ledgers.len() == old.ledgers.len() + 1
                &&& forall|j: int|
                    0 <= j < old.ledgers.len() ==> #[trigger] self.ledgers[j] == old.ledgers[j]
                &&& self.ledgers[old.ledgers.len() as int].opens(id, params, funds)
                &&& r == (Response::AddMarket { id })
            },
            ExecuteMsg::Provide { id } => {
                let i = market_index(old.ledgers@, id)->0;
                let was = old.ledgers[i];
                &&& self.same_but(old, i)
                &&& self.ledgers[i]@ == was.after_provide(now, sender, funds)->Ok_0
                &&& self.ledgers[i].market.same_setup(&was.market)
                &&& r is Provide
                &&& r->Provide_id == id
                &&& r->Provide_deposit_amount == funds->amount
                &&& r->minted.is_for(was.market.pool(), funds->amount as nat)
            },
            ExecuteMsg::Deposit { id, outcome, liquidity } => {
                let i = market_index(old.ledgers@, id)->0;
                let was = old.ledgers[i];
                let amount = funds->amount as nat;
                let rest = (amount - was.deposit_fee(amount)) as nat;
                &&& self.same_but(old, i)
                &&& self.ledgers[i]@ == was.after_deposit(now, sender, outcome, funds, liquidity)->Ok_0
                &&& self.ledgers[i].market.same_setup(&was.market)
                &&& r is Deposit
                &&& r->Deposit_id == id
                &&& r->Deposit_outcome == outcome
                &&& r->deposited.deposit_amount@ == amount
                &&& r->deposited.fee@ == was.deposit_fee(amount)
                &&& r->deposited.tokens@ == tokens_bought(
                    was.pool_after_fee(amount),
                    outcome.0 as int,
                    rest,
                    scaled_floor(rest, liquidity@),
                )
                &&& r->deposited.lp@ == minted_shares(
                    was.pool_after_fee(amount),
                    scaled_floor(rest, liquidity@),
                )
            },
            ExecuteMsg::Withdraw { id, outcome, tokens } => {
                let i = market_index(old.ledgers@, id)->0;
                let was = old.ledgers[i];
                &&& self.same_but(old, i)
                &&& self.ledgers[i]@ == was.after_withdraw(now, sender, outcome, tokens)->Ok_0
                &&& self.ledgers[i].market.same_setup(&was.market)
                &&& r is Withdraw
                &&& r->Withdraw_id == id
                &&& r->Withdraw_outcome == outcome
                &&& r->withdrawn.tokens == tokens
                &&& r->withdrawn.fee@ == was.withdrawal_fee(was.freed(outcome, tokens))
                &&& r->withdrawn.withdrawal == was.freed(outcome, tokens)
                    - r->withdrawn.fee@
            },
            ExecuteMsg::SetWinner { id, outcome } => {
                let i = market_index(old.ledgers@, id)->0;
                let was = old.ledgers[i];
                &&& self.same_but(old, i)
                &&& self.ledgers[i]@ == was.after_set_winner(now, sender, outcome)->Ok_0
                &&& self.ledgers[i].holders == was.holders
                &&& self.ledgers[i].market.same_but_winner(&was.market)
                &&& r == (Response::SetWinner { id, outcome })
            },
            ExecuteMsg::Collect { id } => {
                let i = market_index(old.ledgers@, id)->0;
                let was = old.ledgers[i];
                let before = position_of(was@.holders, sender, 0);
                &&& self.same_but(old, i)
                &&& self.ledgers[i].market == was.market
                &&& self.ledgers[i]@.holders == put(was@.holders, sender, claimed(before))
                &&& r is Collect
                &&& r->Collect_id == id
                &&& r->collected.winner == was.market.winner->0
                &&& r->collected.tokens@ == entitlement(
                    before,
                    was.market.pool(),
                    was.market.winner->0,
                )
                &&& r->collected.winnings == r->collected.tokens@
            },
            ExecuteMsg::AppointAdmin { addr } => {
                &&& self.admin == old.admin
                &&& self.appointed_admin == Some(addr)
                &&& self.last_market_id == old.last_market_id
                &&& self.ledgers@ == old.ledgers@
                &&& r is AppointAdmin
                &&& r->AppointAdmin_addr@ == addr@
            },
            ExecuteMsg::AcceptAdmin {  } => {
                &&& self.admin == old.appointed_admin->0
                &&& self.appointed_admin is None
                &&& self.last_market_id == old.last_market_id
                &&& self.ledgers@ == old.ledgers@
                &&& r is AcceptAdmin
                &&& r->AcceptAdmin_addr@ == self.admin@
            },
        }
    }
}

/// Takes a message at the time `now`.
///
/// On an error the state is left as it was. The books stay in order.
pub fn execute(state: &mut State, now: Timestamp, info: MessageInfo, msg: ExecuteMsg) -> (r: Result<
    Response,
    Error,
>)
    requires
        old(state).wf(),
    ensures
        final(state).wf(),
        old(state).sane(now) ==> final(state).sane(now),
        match old(state).refuses(now, &info, msg) {
            Some(e) => r is Err && r->Err_0 == e && final(state).same_as(old(state)),
            None => r is Ok && final(state).follows(old(state), r->Ok_0, now, &info, msg),
        },
{
    let funds = match Funds::from_message_info(&info) {
        Ok(v) => v,
        Err(e) => { return Err(e); },
    };
    match msg {
        ExecuteMsg::AddMarket { params } => {
            match assert_is_admin(state, &info) {
                Ok(_) => {},
                Err(e) => { return Err(e); },
            }
            let id = match state.last_market_id {
                None => MarketId::one(),
                Some(last) => {
                    if last.0 == u32::MAX {
                        return Err(Error::Overflow);
                    }
                    last.next()
                },
            };
            let ledger = match add_market(id, now, params, funds) {
                Ok(v) => v,
                Err(e) => { return Err(e); },
            };
            state.last_market_id = Some(id);
            state.ledgers.push(ledger);
            Ok(Response::AddMarket { id })
        },
        ExecuteMsg::Provide { id } => {
            let i = match state.find_market(id) {
                Ok(v) => v,
                Err(e) => { return Err(e); },
            };
            let deposit_amount = match &funds {
                Funds::NoFunds => 0,
                Funds::Funds { denom: _, amount } => *amount,
            };
            proof {
                lemma_market_index(state.ledgers@, id);
            }
            match state.ledgers[i].provide(now, &info.sender, funds) {
                Ok(minted) => Ok(Response::Provide { id, deposit_amount, minted }),
                Err(e) => {
                    assert(state.ledgers@ =~= old(state).ledgers@);
                    Err(e)
                },
            }
        },
        ExecuteMsg::Deposit { id, outcome, liquidity } => {
            let i = match state.find_market(id) {
                Ok(v) => v,
                Err(e) => { return Err(e); },
            };
            proof {
                lemma_market_index(state.ledgers@, id);
            }
            match state.ledgers[i].deposit(now, &info.sender, outcome, funds, liquidity) {
                Ok(deposited) => Ok(Response::Deposit { id, outcome, deposited }),
                Err(e) => {
                    assert(state.ledgers@ =~= old(state).ledgers@);
                    Err(e)
                },
            }
        },
        ExecuteMsg::Withdraw { id, outcome, tokens } => {
            match funds.require_none() {
                Ok(_) => {},
                Err(e) => { return Err(e); },
            }
            let i = match state.find_market(id) {
                Ok(v) => v,
                Err(e) => { return Err(e); },
            };
            proof {
                lemma_market_index(state.ledgers@, id);
            }
            match state.ledgers[i].withdraw(now, &info.sender, outcome, tokens) {
                Ok(withdrawn) => Ok(Response::Withdraw { id, outcome, withdrawn }),
                Err(e) => {
                    assert(state.ledgers@ =~= old(state).ledgers@);
                    Err(e)
                },
            }
        },
        ExecuteMsg::SetWinner { id, outcome } => {
            match funds.require_none() {
                Ok(_) => {},
                Err(e) => { return Err(e); },
            }
            let i = match state.find_market(id) {
                Ok(v) => v,
                Err(e) => { return Err(e); },
            };
            proof {
                lemma_market_index(state.ledgers@, id);
            }
            match state.ledgers[i].set_winner(now, &info.sender, outcome) {
                Ok(_) => Ok(Response::SetWinner { id, outcome }),
                Err(e) => {
                    assert(state.ledgers@ =~= old(state).ledgers@);
                    Err(e)
                },
            }
        },
        ExecuteMsg::Collect { id } => {
            match funds.require_none() {
                Ok(_) => {},
                Err(e) => { return Err(e); },
            }
            let i = match state.find_market(id) {
                Ok(v) => v,
                Err(e) => { return Err(e); },
            };
            proof {
                lemma_market_index(state.ledgers@, id);
            }
            match state.ledgers[i].collect(&info.sender) {
                Ok(collected) => Ok(Response::Collect { id, collected }),
                Err(e) => {
                    assert(state.ledgers@ =~= old(state).ledgers@);
                    Err(e)
                },
            }
        },
        ExecuteMsg::AppointAdmin { addr } => {
            match funds.require_none() {
                Ok(_) => {},
                Err(e) => { return Err(e); },
            }
            match assert_is_admin(state, &info) {
                Ok(_) => {},
                Err(e) => { return Err(e); },
            }
            Ok(appoint_admin(state, addr))
        },
        ExecuteMsg::AcceptAdmin {  } => {
            match funds.require_none() {
                Ok(_) => {},
                Err(e) => { return Err(e); },
            }
            accept_admin(state, &info)
        },
    }
}

/// Appoints `addr` as the wallet that may take over as admin.
pub fn appoint_admin(state: &mut State, addr: String) -> (r: Response)
    ensures
        final(state).admin == old(state).admin,
        final(state).appointed_admin == Some(addr),
        final(state).last_market_id == old(state).last_market_id,
        final(state).ledgers == old(state).ledgers,
        r is AppointAdmin,
        r->AppointAdmin_addr@ == addr@,
{
    let copy = addr.clone();
    state.appointed_admin = Some(addr);
    Response::AppointAdmin { addr: copy }
}

/// Makes the sender the admin, if it is the wallet appointed.
/// `NoAppointedAdmin` when none is, `NotAppointedAdmin` when another is.
/// On an error the state is left as it was.
pub fn accept_admin(state: &mut State, info: &MessageInfo) -> (r: Result<Response, Error>)
    ensures
        final(state).last_market_id == old(state).last_market_id,
        final(state).ledgers == old(state).ledgers,
        old(state).appointed_admin is None ==> r is Err && r->Err_0 == Error::NoAppointedAdmin
            && *final(state) == *old(state),
        old(state).appointed_admin is Some && old(state).appointed_admin->0@ != info.sender@ ==> r is Err
            && r->Err_0 == Error::NotAppointedAdmin && *final(state) == *old(state),
        old(state).appointed_admin is Some && old(state).appointed_admin->0@ == info.sender@ ==> r is Ok
            && final(state).admin == old(state).appointed_admin->0
            && final(state).appointed_admin is None
            && r->Ok_0 is AcceptAdmin
            && r->Ok_0->AcceptAdmin_addr@ == info.sender@,
{
    let matches = match &state.appointed_admin {
        None => { return Err(Error::NoAppointedAdmin); },
        Some(appointed) => *appointed == info.sender,
    };
    if !matches {
        return Err(Error::NotAppointedAdmin);
    }
    let appointed = state.appointed_admin.take().unwrap();
    let copy = appointed.clone();
    state.admin = appointed;
    Ok(Response::AcceptAdmin { addr: copy })
}

impl StoredMarket {
    /// The market with the id `id` in `store`; `MarketNotFound` when there
    /// is none.
    pub fn load(store: &State, id: MarketId) -> (r: Result<&StoredMarket, Error>)
        ensures
            match market_index(store.ledgers@, id) {
                Some(i) => r is Ok && *r->Ok_0 == store.ledgers[i].market,
                None => r is Err && r->Err_0 == (Error::MarketNotFound { id }),
            },
    {
        store.market(id)
    }
}

/// The state of a new contract, with `admin` as its admin: no markets yet,
/// and nobody appointed to take over.
pub fn instantiate(admin: String) -> (r: State)
    ensures
        r.admin == admin,
        r.appointed_admin is None,
        r.last_market_id is None,
        r.ledgers.len() == 0,
        r.wf(),
        forall|now: Timestamp| #[trigger] r.sane(now),
{
    State { admin, appointed_admin: None, last_market_id: None, ledgers: Vec::new() }
}

/// An answer to a query.
#[derive(Debug)]
pub enum Answer<'a> {
    GlobalInfo(GlobalInfo),
    Market(&'a StoredMarket),
    Positions(ShareInfo),
}

/// Answers a query: who the admin is and which market was opened last, a
/// market, or the position of a wallet in a market.
pub fn query<'a>(store: &'a State, msg: QueryMsg) -> (r: Result<Answer<'a>, Error>)
    requires
        store.wf(),
    ensures
        match msg {
            QueryMsg::GlobalInfo {  } => r is Ok && r->Ok_0 is GlobalInfo && r->Ok_0->GlobalInfo_0.admin
                == store.admin && r->Ok_0->GlobalInfo_0.latest_market_id == store.last_market_id,
            QueryMsg::Market { id } => match market_index(store.ledgers@, id) {
                Some(i) => r is Ok && r->Ok_0 is Market && *r->Ok_0->Market_0
                    == store.ledgers[i].market,
                None => r is Err && r->Err_0 == (Error::MarketNotFound { id }),
            },
            QueryMsg::Positions { id, addr } => match market_index(store.ledgers@, id) {
                Some(i) => r is Ok && r->Ok_0 is Positions && r->Ok_0->Positions_0@ == position_of(
                    store.ledgers[i]@.holders,
                    addr@,
                    store.ledgers[i].market.outcomes.len() as nat,
                ),
                None => r is Err && r->Err_0 == (Error::MarketNotFound { id }),
            },
        },
{
    match msg {
        QueryMsg::GlobalInfo {  } => Ok(Answer::GlobalInfo(store.global_info())),
        QueryMsg::Market { id } => match StoredMarket::load(store, id) {
            Ok(market) => Ok(Answer::Market(market)),
            Err(e) => Err(e),
        },
        QueryMsg::Positions { id, addr } => match store.positions(id, &addr) {
            Ok(info) => Ok(Answer::Positions(info)),
            Err(e) => Err(e),
        },
    }
}

/// Passes when the message comes from the admin; else `Unauthorized`.
pub fn assert_is_admin(state: &State, info: &MessageInfo) -> (r: Result<(), Error>)
    ensures
        state.admin@ == info.sender@ ==> r is Ok,
        state.admin@ != info.sender@ ==> r is Err && r->Err_0 == Error::Unauthorized,
{
    if state.admin == info.sender {
        Ok(())
    } else {
        Err(Error::Unauthorized)
    }
}

} // verus!
