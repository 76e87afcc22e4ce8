//! The books of a market balance: what the wallets hold and what the pool
//! holds add up to the collateral, and the counts of wallets are true.

use crate::cpmm::{
    after_buy, lemma_liquidity_part_bounded, lemma_solved_balance_bounded, liquidity_returned,
    minted_shares, tokens_bought, with_liquidity,
};
use crate::decimal::Decimal;
use crate::execute::{claimed, debited};
use crate::ledger::{
    active, find, held, holding, lemma_find, lemma_position_after_put, lemma_total_put,
    lemma_total_step, position_of, put, shares_held, total, Ledger, LedgerView,
};
use crate::math::{lemma_max_of_bounds, lemma_share_bounded, max_of};
use crate::state::{credited, is_active, only, PositionView};
use crate::store::State;
use crate::swap::{after_sell, lemma_sale_bounded, sell_returned};
use crate::types::{scaled_floor, OutcomeId, Timestamp, Token};
use crate::util::Funds;
use crate::wide::{fits, lemma_bounded, U256};
use vstd::prelude::*;

verus! {

impl LedgerView {
    /// The number of outcomes.
    pub open spec fn outcome_count(self) -> nat {
        self.pool.tokens.len()
    }

    /// Whether `outcome` is one of the market's outcomes.
    pub open spec fn names(self, outcome: OutcomeId) -> bool {
        outcome.0 < self.outcome_count()
    }

    /// Whether the market is set up as it should be at the time `now`:
    /// deposits stop no earlier than withdrawals, a winner is one of the
    /// outcomes and not declared before deposits stop, the outcomes are
    /// numbered from 0, the house has a position with shares, and every
    /// position has a balance for each outcome and is not paid out before a
    /// winner is declared.
    pub open spec fn shaped(self, now: Timestamp) -> bool {
        let n = self.outcome_count();
        &&& self.deposit_stop_date.0 >= self.withdrawal_stop_date.0
        &&& (self.winner is Some ==> self.deposit_stop_date.0 <= now.0 && self.names(self.winner->0))
        &&& self.outcome_ids.len() == n
        &&& self.wallets.len() == n
        &&& forall|i: int| 0 <= i < n ==> (#[trigger] self.outcome_ids[i]).0 == i
        &&& find(self.holders, self.house) is Some
        &&& position_of(self.holders, self.house, n).shares > 0
        &&& forall|k: int|
            0 <= k < self.holders.len() ==> (#[trigger] self.holders[k]).position.tokens.len() == n
                && (self.holders[k].position.claimed ==> self.winner is Some)
    }

    /// Whether the counts of wallets are true: each outcome counts the
    /// wallets that hold tokens of it, and the total those that hold tokens
    /// or shares.
    pub open spec fn counted(self) -> bool {
        &&& total(self.holders, active()) == self.total_wallets
        &&& forall|i: int|
            0 <= i < self.outcome_count() ==> total(self.holders, #[trigger] holding(i))
                == self.wallets[i]
    }

    /// Whether every token and share is accounted for: of each outcome, the
    /// tokens that the wallets hold and those that the pool holds add up to
    /// the collateral; and the wallets' shares add up to the shares in issue.
    pub open spec fn backed(self) -> bool {
        &&& total(self.holders, shares_held()) == self.pool.shares
        &&& forall|i: int|
            0 <= i < self.outcome_count() ==> self.pool.tokens[i] + total(
                self.holders,
                #[trigger] held(i),
            ) == self.pool.size
    }

    /// Whether the books of the market are in order at the time `now`.
    pub open spec fn sane(self, now: Timestamp) -> bool {
        self.shaped(now) && self.counted() && self.backed()
    }
}

/// The position that a wallet has in a well-shaped ledger has a balance for
/// each outcome, and is paid out only after a winner is declared.
pub proof fn lemma_position_shaped(l: LedgerView, now: Timestamp, addr: Seq<char>)
    requires
        l.shaped(now),
    ensures
        position_of(l.holders, addr, l.outcome_count()).tokens.len() == l.outcome_count(),
        position_of(l.holders, addr, l.outcome_count()).claimed ==> l.winner is Some,
{
    lemma_find(l.holders, addr);
}

/// What replacing a wallet's position keeps, and what it does to the sums.
///
/// The shape is kept if the new position is well-shaped, and if the house
/// keeps its shares. The counts stay true. Each sum changes by the
/// difference between the two positions.
pub proof fn lemma_replace(
    l: LedgerView,
    now: Timestamp,
    addr: Seq<char>,
    after: PositionView,
)
    requires
        l.shaped(now),
        l.counted(),
        after.tokens.len() == l.outcome_count(),
        after.claimed ==> l.winner is Some,
        addr == l.house ==> after.shares > 0,
        l.replace(addr, position_of(l.holders, addr, l.outcome_count()), after) is Ok,
    ensures
        ({
            let before = position_of(l.holders, addr, l.outcome_count());
            let m = l.replace(addr, before, after)->Ok_0;
            &&& m.shaped(now)
            &&& m.counted()
            &&& m.pool == l.pool
            &&& total(m.holders, shares_held()) + before.shares == total(l.holders, shares_held())
                + after.shares
            &&& forall|i: int|
                0 <= i < l.outcome_count() ==> total(m.holders, #[trigger] held(i))
                    + before.tokens[i] == total(l.holders, held(i)) + after.tokens[i]
        }),
{
    let n = l.outcome_count();
    let before = position_of(l.holders, addr, n);
    let m = l.replace(addr, before, after)->Ok_0;
    lemma_position_shaped(l, now, addr);
    lemma_find(l.holders, addr);
    lemma_position_after_put(l.holders, addr, after, l.house, n);
    lemma_total_put(l.holders, addr, after, n, shares_held());
    lemma_total_put(l.holders, addr, after, n, active());
    assert forall|i: int| 0 <= i < n implies total(m.holders, #[trigger] held(i))
        + before.tokens[i] == total(l.holders, held(i)) + after.tokens[i] by {
        lemma_total_put(l.holders, addr, after, n, held(i));
    }
    assert forall|i: int| 0 <= i < n implies total(m.holders, #[trigger] holding(i))
        == m.wallets[i] by {
        lemma_total_put(l.holders, addr, after, n, holding(i));
    }
    assert forall|k: int| 0 <= k < m.holders.len() implies (#[trigger] m.holders[k]).position.tokens.len()
        == n && (m.holders[k].position.claimed ==> m.winner is Some) by {
        match find(l.holders, addr) {
            Some(i) => {
                if k != i {
                    assert(m.holders[k] == l.holders[k]);
                }
            },
            None => {
                if k < l.holders.len() {
                    assert(m.holders[k] == l.holders[k]);
                }
            },
        }
    }
}

/// Adding liquidity keeps the books in order.
pub proof fn lemma_provide_keeps_sane(l: LedgerView, now: Timestamp, addr: Seq<char>, funds: nat)
    requires
        l.sane(now),
        l.provide(addr, funds) is Ok,
    ensures
        l.provide(addr, funds)->Ok_0.sane(now),
{
    let n = l.outcome_count();
    let grown = LedgerView { pool: with_liquidity(l.pool, funds), ..l };
    let before = position_of(l.holders, addr, n);
    let after = credited(before, minted_shares(l.pool, funds), liquidity_returned(l.pool, funds));
    let m = l.provide(addr, funds)->Ok_0;
    lemma_position_shaped(l, now, addr);
    lemma_replace(grown, now, addr, after);
    assert forall|i: int| 0 <= i < n implies m.pool.tokens[i] + total(
        m.holders,
        #[trigger] held(i),
    ) == m.pool.size by {
        lemma_max_of_bounds(l.pool.tokens, i);
        lemma_share_bounded(funds, l.pool.tokens[i], max_of(l.pool.tokens));
    }
}

/// Buying tokens keeps the books in order.
pub proof fn lemma_bet_keeps_sane(
    l: LedgerView,
    now: Timestamp,
    sender: Seq<char>,
    outcome: OutcomeId,
    rest: nat,
    liquidity: Decimal,
)
    requires
        l.sane(now),
        outcome.0 < l.outcome_count(),
        l.bet(sender, outcome, rest, liquidity) is Ok,
    ensures
        l.bet(sender, outcome, rest, liquidity)->Ok_0.sane(now),
{
    let n = l.outcome_count();
    let o = outcome.0 as int;
    let liq = scaled_floor(rest, liquidity@);
    let swapped = LedgerView { pool: after_buy(l.pool, o, rest, liq), ..l };
    let before = position_of(l.holders, sender, n);
    let bought = tokens_bought(l.pool, o, rest, liq);
    let after = credited(before, minted_shares(l.pool, liq), only(n, o, bought));
    let m = l.bet(sender, outcome, rest, liquidity)->Ok_0;
    lemma_position_shaped(l, now, sender);
    lemma_replace(swapped, now, sender, after);
    lemma_liquidity_part_bounded(rest, liquidity@);
    lemma_solved_balance_bounded(l.pool, o, rest, liq);
    lemma_max_of_bounds(l.pool.tokens, o);
    lemma_share_bounded(liq, l.pool.tokens[o], max_of(l.pool.tokens));
    assert forall|i: int| 0 <= i < n implies m.pool.tokens[i] + total(
        m.holders,
        #[trigger] held(i),
    ) == m.pool.size by {
        assert(l.pool.tokens[i] + total(l.holders, held(i)) == l.pool.size);
    }
}

impl Ledger {
    /// The sum of the wallets' shares, or `None` when it needs more than 256 bits.
    fn sum_shares(&self) -> (r: Option<U256>)
        ensures
            match r {
                Some(v) => v@ == total(self@.holders, shares_held()),
                None => !fits(total(self@.holders, shares_held())),
            },
    {
        let ghost es = self@.holders;
        let mut sum = U256::zero();
        let mut k: usize = 0;
        while k < self.holders.len()
            invariant
                k <= self.holders.len(),
                es == self@.holders,
                sum@ == total(es.take(k as int), shares_held()),
            decreases self.holders.len() - k,
        {
            proof {
                lemma_total_step(es, k as int, shares_held());
                lemma_total_step(es, k + 1, shares_held());
            }
            sum = match sum.checked_add(self.holders[k].info.shares.0) {
                Some(v) => v,
                None => { return None; },
            };
            k = k + 1;
        }
        assert(es.take(es.len() as int) == es);
        Some(sum)
    }

    /// The sum of the wallets' tokens of the outcome at `i`, or `None` when it
    /// needs more than 256 bits.
    fn sum_held(&self, i: usize) -> (r: Option<U256>)
        requires
            self.wf(),
            i < self.market.outcomes.len(),
        ensures
            match r {
                Some(v) => v@ == total(self@.holders, held(i as int)),
                None => !fits(total(self@.holders, held(i as int))),
            },
    {
        let ghost es = self@.holders;
        let mut sum = U256::zero();
        let mut k: usize = 0;
        while k < self.holders.len()
            invariant
                k <= self.holders.len(),
                self.wf(),
                i < self.market.outcomes.len(),
                es == self@.holders,
                sum@ == total(es.take(k as int), held(i as int)),
            decreases self.holders.len() - k,
        {
            proof {
                lemma_total_step(es, k as int, held(i as int));
                lemma_total_step(es, k + 1, held(i as int));
            }
            sum = match sum.checked_add(self.holders[k].info.outcomes[i].0) {
                Some(v) => v,
                None => { return None; },
            };
            k = k + 1;
        }
        assert(es.take(es.len() as int) == es);
        Some(sum)
    }

    /// The number of wallets that hold tokens of the outcome at `i`.
    fn count_holding(&self, i: usize) -> (r: usize)
        requires
            self.wf(),
            i < self.market.outcomes.len(),
        ensures
            r == total(self@.holders, holding(i as int)),
    {
        let ghost es = self@.holders;
        let mut count: usize = 0;
        let mut k: usize = 0;
        while k < self.holders.len()
            invariant
                k <= self.holders.len(),
                self.wf(),
                i < self.market.outcomes.len(),
                es == self@.holders,
                count == total(es.take(k as int), holding(i as int)),
                count <= k,
            decreases self.holders.len() - k,
        {
            proof {
                lemma_total_step(es, k as int, holding(i as int));
            }
            if !self.holders[k].info.outcomes[i].is_zero() {
                count = count + 1;
            }
            k = k + 1;
        }
        assert(es.take(es.len() as int) == es);
        count
    }

    /// The number of wallets that hold tokens or shares.
    fn count_active(&self) -> (r: usize)
        ensures
            r == total(self@.holders, active()),
    {
        let ghost es = self@.holders;
        let mut count: usize = 0;
        let mut k: usize = 0;
        while k < self.holders.len()
            invariant
                k <= self.holders.len(),
                es == self@.holders,
                count == total(es.take(k as int), active()),
                count <= k,
            decreases self.holders.len() - k,
        {
            proof {
                lemma_total_step(es, k as int, active());
            }
            if self.holders[k].info.is_active() {
                count = count + 1;
            }
            k = k + 1;
        }
        assert(es.take(es.len() as int) == es);
        count
    }

    /// Whether every position has a balance for each outcome and is not
    /// paid out before a winner is declared.
    fn positions_shaped(&self) -> (r: bool)
        ensures
            r == (forall|k: int|
                0 <= k < self@.holders.len() ==> (#[trigger] self@.holders[k]).position.tokens.len()
                    == self@.outcome_count() && (self@.holders[k].position.claimed
                    ==> self@.winner is Some)),
            r ==> self.wf(),
    {
        let n = self.market.outcomes.len();
        let mut k: usize = 0;
        while k < self.holders.len()
            invariant
                k <= self.holders.len(),
                n == self.market.outcomes.len(),
                forall|j: int|
                    0 <= j < k ==> (#[trigger] self@.holders[j]).position.tokens.len() == n && (
                    self@.holders[j].position.claimed ==> self@.winner is Some),
                forall|j: int| 0 <= j < k ==> (#[trigger] self.holders[j]).info.outcomes.len() == n,
            decreases self.holders.len() - k,
        {
            let info = &self.holders[k].info;
            assert(self@.holders[k as int].position == info@);
            if info.outcomes.len() != n || (info.claimed_winnings && self.market.winner.is_none()) {
                return false;
            }
            k = k + 1;
        }
        true
    }

    /// Whether the outcomes are numbered from 0.
    fn outcomes_numbered(&self) -> (r: bool)
        ensures
            r == (forall|i: int|
                0 <= i < self@.outcome_count() ==> (#[trigger] self@.outcome_ids[i]).0 == i),
    {
        let mut i: usize = 0;
        while i < self.market.outcomes.len()
            invariant
                i <= self.market.outcomes.len(),
                forall|j: int| 0 <= j < i ==> (#[trigger] self@.outcome_ids[j]).0 == j,
            decreases self.market.outcomes.len() - i,
        {
            assert(self@.outcome_ids[i as int] == self.market.outcomes[i as int].id);
            if self.market.outcomes[i].id.usize() != i {
                return false;
            }
            i = i + 1;
        }
        true
    }

    /// Whether the tokens of every outcome add up to the collateral, and the
    /// outcomes' counts of wallets are true.
    fn outcomes_balanced(&self) -> (r: bool)
        requires
            self.wf(),
        ensures
            r == ((forall|i: int|
                0 <= i < self@.outcome_count() ==> self@.pool.tokens[i] + total(
                    self@.holders,
                    #[trigger] held(i),
                ) == self@.pool.size) && (forall|i: int|
                0 <= i < self@.outcome_count() ==> total(self@.holders, #[trigger] holding(i))
                    == self@.wallets[i])),
    {
        let ghost v = self@;
        let n = self.market.outcomes.len();
        let mut i: usize = 0;
        while i < n
            invariant
                i <= n,
                n == self.market.outcomes.len(),
                self.wf(),
                v == self@,
                forall|j: int|
                    0 <= j < i ==> v.pool.tokens[j] + total(v.holders, #[trigger] held(j))
                        == v.pool.size,
                forall|j: int| 0 <= j < i ==> total(v.holders, #[trigger] holding(j)) == v.wallets[j],
            decreases n - i,
        {
            proof {
                lemma_bounded(self.market.pool_size.0);
            }
            let supply = match self.sum_held(i) {
                Some(in_wallets) => in_wallets.checked_add(self.market.outcomes[i].pool_tokens.0),
                None => None,
            };
            let backed = match supply {
                Some(v) => v.same(&self.market.pool_size.0),
                None => false,
            };
            if !backed {
                return false;
            }
            if self.count_holding(i) != self.market.outcomes[i].wallets as usize {
                return false;
            }
            i = i + 1;
        }
        true
    }

    /// Checks the books of the market at the time `now`: whether the market
    /// is set up as it should be, the counts of wallets are true, and every
    /// token and share is accounted for.
    pub fn sanity(&self, now: Timestamp) -> (r: bool)
        ensures
            r == self@.sane(now),
            r ==> self.wf(),
    {
        // Basic sanity of config values
        if self.market.deposit_stop_date.0 < self.market.withdrawal_stop_date.0 {
            return false;
        }
        match self.market.winner {
            Some(winner) => {
                if self.market.deposit_stop_date.0 > now.0 || winner.usize()
                    >= self.market.outcomes.len() {
                    return false;
                }
            },
            None => {},
        }
        if !self.outcomes_numbered() {
            return false;
        }
        // We always need an entry for the house
        match self.lookup(&self.market.house) {
            None => { return false; },
            Some(k) => {
                if self.holders[k].info.shares.is_zero() {
                    return false;
                }
            },
        }
        if !self.positions_shaped() {
            return false;
        }
        proof {
            lemma_bounded(self.market.lp_shares.0);
        }
        let shares_match = match self.sum_shares() {
            Some(sum) => sum.same(&self.market.lp_shares.0),
            None => false,
        };
        if !shares_match {
            return false;
        }
        if self.count_active() != self.market.total_wallets as usize {
            return false;
        }
        self.outcomes_balanced()
    }
}

/// Checks the books of every market at the time `now`, and that the markets
/// are numbered from 1 in the order in which they were opened.
pub fn sanity(store: &State, now: Timestamp) -> (r: bool)
    ensures
        r == store.sane(now),
        r ==> store.wf(),
{
    let n = store.ledgers.len();
    if n > u32::MAX as usize {
        return false;
    }
    let last_ok = match store.last_market_id {
        None => n == 0,
        Some(id) => id.0 as usize == n,
    };
    if !last_ok {
        return false;
    }
    let mut i: usize = 0;
    while i < n
        invariant
            i <= n,
            n == store.ledgers.len(),
            n <= u32::MAX,
            forall|j: int| 0 <= j < i ==> (#[trigger] store.ledgers[j])@.sane(now),
            forall|j: int| 0 <= j < i ==> (#[trigger] store.ledgers[j]).wf(),
            forall|j: int| 0 <= j < i ==> (#[trigger] store.ledgers[j]).market.id.0 == j + 1,
        decreases n - i,
    {
        if !store.ledgers[i].sanity(now) {
            return false;
        }
        if store.ledgers[i].market.id.0 as usize != i + 1 {
            return false;
        }
        i = i + 1;
    }
    true
}

/// A deposit keeps the books in order.
pub proof fn lemma_deposit_keeps_sane(
    l: &Ledger,
    now: Timestamp,
    sender: Seq<char>,
    outcome: OutcomeId,
    funds: Funds,
    liquidity: Decimal,
)
    requires
        l@.sane(now),
        l.after_deposit(now, sender, outcome, funds, liquidity) is Ok,
    ensures
        l.after_deposit(now, sender, outcome, funds, liquidity)->Ok_0.sane(now),
{
    let amount = funds->amount as nat;
    let fee = l.deposit_fee(amount);
    lemma_provide_keeps_sane(l@, now, l.market.house@, fee);
    let m = l@.provide(l.market.house@, fee)->Ok_0;
    lemma_bet_keeps_sane(m, now, sender, outcome, (amount - fee) as nat, liquidity);
}

/// Providing liquidity keeps the books in order.
pub proof fn lemma_provision_keeps_sane(l: &Ledger, now: Timestamp, sender: Seq<char>, funds: Funds)
    requires
        l@.sane(now),
        l.after_provide(now, sender, funds) is Ok,
    ensures
        l.after_provide(now, sender, funds)->Ok_0.sane(now),
{
    lemma_provide_keeps_sane(l@, now, sender, funds->amount as nat);
}

/// A withdrawal keeps the books in order.
pub proof fn lemma_withdraw_keeps_sane(
    l: &Ledger,
    now: Timestamp,
    sender: Seq<char>,
    outcome: OutcomeId,
    tokens: Token,
)
    requires
        l@.sane(now),
        l.after_withdraw(now, sender, outcome, tokens) is Ok,
    ensures
        l.after_withdraw(now, sender, outcome, tokens)->Ok_0.sane(now),
{
    let v = l@;
    let o = outcome.0 as int;
    let pool = l.market.pool();
    let root = l.market.root_for(outcome, tokens);
    let before = position_of(v.holders, sender, 2);
    let mid = debited(before, o, tokens@);
    let returned = sell_returned(pool, o, tokens@, root);
    let after = credited(mid, 0, returned);
    let funds = l.freed(outcome, tokens);
    let fee = l.withdrawal_fee(funds);
    let sold_out = LedgerView { pool: after_sell(pool, o, tokens@, root), ..v };
    let ps = pool.tokens[o];
    let pu = pool.tokens[1 - o];
    lemma_find(v.holders, sender);
    lemma_position_shaped(v, now, sender);
    lemma_position_shaped(v, now, v.house);
    lemma_sale_bounded(ps, pu, tokens@, root);
    lemma_replace(sold_out, now, sender, after);
    let m = sold_out.replace(sender, before, after)->Ok_0;
    assert forall|i: int| 0 <= i < 2 implies m.pool.tokens[i] + total(m.holders, #[trigger] held(i))
        == m.pool.size by {
        assert(v.pool.tokens[i] + total(v.holders, held(i)) == v.pool.size);
    }
    lemma_provide_keeps_sane(m, now, l.market.house@, fee);
}

/// Declaring the winner keeps the books in order.
pub proof fn lemma_set_winner_keeps_sane(
    l: &Ledger,
    now: Timestamp,
    sender: Seq<char>,
    outcome: OutcomeId,
)
    requires
        l@.sane(now),
        l.after_set_winner(now, sender, outcome) is Ok,
    ensures
        l.after_set_winner(now, sender, outcome)->Ok_0.sane(now),
{
}

/// Paying out a wallet's winnings keeps the books in order.
pub proof fn lemma_collect_keeps_sane(l: &Ledger, now: Timestamp, sender: Seq<char>)
    requires
        l@.sane(now),
        l.collect_error(sender) is None,
    ensures
        (LedgerView {
            holders: put(l@.holders, sender, claimed(position_of(l@.holders, sender, 0))),
            ..l@
        }).sane(now),
{
    let v = l@;
    let n = v.outcome_count();
    let before = position_of(v.holders, sender, 0);
    let after = claimed(before);
    let m = LedgerView { holders: put(v.holders, sender, after), ..v };
    lemma_find(v.holders, sender);
    lemma_position_shaped(v, now, sender);
    lemma_position_after_put(v.holders, sender, after, v.house, n);
    lemma_total_put(v.holders, sender, after, n, shares_held());
    lemma_total_put(v.holders, sender, after, n, active());
    assert forall|i: int| 0 <= i < n implies m.pool.tokens[i] + total(m.holders, #[trigger] held(i))
        == m.pool.size by {
        lemma_total_put(v.holders, sender, after, n, held(i));
    }
    assert forall|i: int| 0 <= i < n implies total(m.holders, #[trigger] holding(i))
        == m.wallets[i] by {
        lemma_total_put(v.holders, sender, after, n, holding(i));
    }
    assert forall|k: int| 0 <= k < m.holders.len() implies (#[trigger] m.holders[k]).position.tokens.len()
        == n && (m.holders[k].position.claimed ==> m.winner is Some) by {
        let i = find(v.holders, sender)->0;
        if k != i {
            assert(m.holders[k] == v.holders[k]);
        }
    }
}

} // verus!
