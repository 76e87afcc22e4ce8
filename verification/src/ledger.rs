//! One market with the positions of all its wallets, and the sums that tie
//! the two together.

use crate::cpmm::{
    liquidity_error, liquidity_returned, minted_shares, with_liquidity, AddLiquidity, Pool,
    PoolView,
};
use crate::error::Error;
use crate::math::amounts;
use crate::state::{
    credit_fits, credited, empty_position, is_active, PositionView, ShareInfo, StoredMarket,
};
use crate::types::{MarketId, OutcomeId, Timestamp};
use vstd::prelude::*;

verus! {

/// A wallet's position in a market, with the wallet's address.
#[derive(Debug)]
pub struct Holder {
    pub addr: String,
    pub info: ShareInfo,
}

/// A market and the positions of the wallets in it, in the order in which
/// the wallets came.
#[derive(Debug)]
pub struct Ledger {
    pub market: StoredMarket,
    pub holders: Vec<Holder>,
}

/// A wallet's address and the numbers of its position.
pub struct Entry {
    pub addr: Seq<char>,
    pub position: PositionView,
}

/// What the rules of a market read and change.
pub struct LedgerView {
    pub id: MarketId,
    pub arbitrator: Seq<char>,
    pub house: Seq<char>,
    pub denom: Seq<char>,
    /// The atomic units of the fee on deposits.
    pub deposit_fee: nat,
    /// The atomic units of the fee on withdrawals.
    pub withdrawal_fee: nat,
    pub deposit_stop_date: Timestamp,
    pub withdrawal_stop_date: Timestamp,
    /// The ids of the outcomes, in their order.
    pub outcome_ids: Seq<OutcomeId>,
    pub pool: PoolView,
    /// For each outcome the count of wallets that hold tokens of it.
    pub wallets: Seq<nat>,
    /// The count of wallets that hold tokens or shares.
    pub total_wallets: nat,
    pub winner: Option<OutcomeId>,
    pub holders: Seq<Entry>,
}

/// The addresses and positions that a list of holders stands for.
pub open spec fn entries(holders: Seq<Holder>) -> Seq<Entry> {
    Seq::new(holders.len(), |i: int| Entry { addr: holders[i].addr@, position: holders[i].info@ })
}

impl View for Ledger {
    type V = LedgerView;

    open spec fn view(&self) -> LedgerView {
        LedgerView {
            id: self.market.id,
            arbitrator: self.market.arbitrator@,
            house: self.market.house@,
            denom: self.market.denom@,
            deposit_fee: self.market.deposit_fee@,
            withdrawal_fee: self.market.withdrawal_fee@,
            deposit_stop_date: self.market.deposit_stop_date,
            withdrawal_stop_date: self.market.withdrawal_stop_date,
            outcome_ids: Seq::new(
                self.market.outcomes.len() as nat,
                |i: int| self.market.outcomes[i].id,
            ),
            pool: self.market.pool(),
            wallets: Seq::new(
                self.market.outcomes.len() as nat,
                |i: int| self.market.outcomes[i].wallets as nat,
            ),
            total_wallets: self.market.total_wallets as nat,
            winner: self.market.winner,
            holders: entries(self.holders@),
        }
    }
}

/// The index of the first entry for `addr`, if there is one.
pub open spec fn find(es: Seq<Entry>, addr: Seq<char>) -> Option<int>
    decreases es.len(),
{
    if es.len() == 0 {
        None
    } else {
        match find(es.drop_last(), addr) {
            Some(i) => Some(i),
            None => if es.last().addr == addr {
                Some(es.len() - 1)
            } else {
                None
            },
        }
    }
}

/// The position of the wallet `addr` in a market of `n` outcomes: the one
/// kept for it, or the empty one.
pub open spec fn position_of(es: Seq<Entry>, addr: Seq<char>, n: nat) -> PositionView {
    match find(es, addr) {
        Some(i) => es[i].position,
        None => empty_position(n),
    }
}

/// The entries with `p` as the position of the wallet `addr`: in place of the
/// one kept for it, or else at the end.
pub open spec fn put(es: Seq<Entry>, addr: Seq<char>, p: PositionView) -> Seq<Entry> {
    match find(es, addr) {
        Some(i) => es.update(i, Entry { addr, position: p }),
        None => es.push(Entry { addr, position: p }),
    }
}

/// What `find` finds: the first entry with the address, or that there is none.
pub proof fn lemma_find(es: Seq<Entry>, addr: Seq<char>)
    ensures
        match find(es, addr) {
            Some(i) => 0 <= i < es.len() && es[i].addr == addr && forall|j: int|
                0 <= j < i ==> es[j].addr != addr,
            None => forall|j: int| 0 <= j < es.len() ==> es[j].addr != addr,
        },
    decreases es.len(),
{
    if es.len() > 0 {
        let front = es.drop_last();
        lemma_find(front, addr);
        assert(forall|j: int| 0 <= j < front.len() ==> front[j] == es[j]);
    }
}

/// The sum of `f` over the positions of all entries.
pub open spec fn total(es: Seq<Entry>, f: spec_fn(PositionView) -> nat) -> nat
    decreases es.len(),
{
    if es.len() == 0 {
        0
    } else {
        total(es.drop_last(), f) + f(es.last().position)
    }
}

/// The tokens of outcome `i` in a position.
pub open spec fn held(i: int) -> spec_fn(PositionView) -> nat {
    |p: PositionView|
        if 0 <= i < p.tokens.len() {
            p.tokens[i]
        } else {
            0
        }
}

/// The liquidity shares in a position.
pub open spec fn shares_held() -> spec_fn(PositionView) -> nat {
    |p: PositionView| p.shares
}

/// 1 for a position with tokens of outcome `i`, else 0.
pub open spec fn holding(i: int) -> spec_fn(PositionView) -> nat {
    |p: PositionView|
        if 0 <= i < p.tokens.len() && p.tokens[i] > 0 {
            1nat
        } else {
            0nat
        }
}

/// 1 for a position with tokens or shares, else 0.
pub open spec fn active() -> spec_fn(PositionView) -> nat {
    |p: PositionView|
        if is_active(p) {
            1nat
        } else {
            0nat
        }
}

/// A sum changes by what the changed entry adds to it.
pub proof fn lemma_total_update(
    es: Seq<Entry>,
    k: int,
    e: Entry,
    f: spec_fn(PositionView) -> nat,
)
    requires
        0 <= k < es.len(),
    ensures
        total(es.update(k, e), f) + f(es[k].position) == total(es, f) + f(e.position),
    decreases es.len(),
{
    if k == es.len() - 1 {
        assert(es.update(k, e).drop_last() == es.drop_last());
    } else {
        lemma_total_update(es.drop_last(), k, e, f);
        assert(es.update(k, e).drop_last() == es.drop_last().update(k, e));
    }
}

/// A sum grows by what a new entry adds to it.
pub proof fn lemma_total_push(es: Seq<Entry>, e: Entry, f: spec_fn(PositionView) -> nat)
    ensures
        total(es.push(e), f) == total(es, f) + f(e.position),
{
    assert(es.push(e).drop_last() == es);
}

/// What `put` does to a sum: the wallet's new position counts in place of
/// the one it had. An empty position must count as nothing.
pub proof fn lemma_total_put(
    es: Seq<Entry>,
    addr: Seq<char>,
    p: PositionView,
    n: nat,
    f: spec_fn(PositionView) -> nat,
)
    requires
        f(empty_position(n)) == 0,
    ensures
        total(put(es, addr, p), f) + f(position_of(es, addr, n)) == total(es, f) + f(p),
{
    lemma_find(es, addr);
    match find(es, addr) {
        Some(i) => {
            lemma_total_update(es, i, Entry { addr, position: p }, f);
        },
        None => {
            lemma_total_push(es, Entry { addr, position: p }, f);
        },
    }
}

/// The sum over the first `k + 1` entries is the sum over the first `k`
/// plus what the next adds; and no sum over a prefix is above the whole.
pub proof fn lemma_total_step(es: Seq<Entry>, k: int, f: spec_fn(PositionView) -> nat)
    requires
        0 <= k <= es.len(),
    ensures
        k < es.len() ==> total(es.take(k + 1), f) == total(es.take(k), f) + f(es[k].position),
        total(es.take(k), f) <= total(es, f),
    decreases es.len(),
{
    if k == es.len() {
        assert(es.take(k) == es);
    } else {
        assert(es.take(k + 1).drop_last() == es.take(k));
        if k < es.len() - 1 {
            lemma_total_step(es.drop_last(), k, f);
            assert(es.drop_last().take(k) == es.take(k));
        }
    }
}

/// Over a single entry a sum is what that entry adds, and the entry is found
/// under its address.
pub proof fn lemma_single(es: Seq<Entry>, f: spec_fn(PositionView) -> nat)
    requires
        es.len() == 1,
    ensures
        total(es, f) == f(es[0].position),
        find(es, es[0].addr) == Some(0int),
{
    let front = es.drop_last();
    assert(total(front, f) == 0);
    assert(find(front, es[0].addr) is None);
}

impl Ledger {
    /// The index of the first holder with the address `addr`.
    pub fn lookup(&self, addr: &String) -> (r: Option<usize>)
        ensures
            match r {
                Some(i) => find(self@.holders, addr@) == Some(i as int) && i < self.holders.len(),
                None => find(self@.holders, addr@) is None,
            },
    {
        let ghost es = self@.holders;
        let mut i: usize = 0;
        while i < self.holders.len()
            invariant
                i <= self.holders.len(),
                es == self@.holders,
                find(es.take(i as int), addr@) is None,
            decreases self.holders.len() - i,
        {
            proof {
                assert(es.take(i + 1).drop_last() == es.take(i as int));
                lemma_find_prefix(es, addr@, i + 1);
            }
            if self.holders[i].addr == *addr {
                return Some(i);
            }
            i = i + 1;
        }
        assert(es.take(es.len() as int) == es);
        None
    }

    /// A copy of the position of the wallet `addr`, or the empty position
    /// when none is kept for it.
    pub fn position(&self, addr: &String) -> (r: ShareInfo)
        requires
            self.wf(),
        ensures
            r@ == position_of(self@.holders, addr@, self.market.outcomes.len() as nat),
            r.outcomes.len() == self.market.outcomes.len(),
    {
        match self.lookup(addr) {
            Some(i) => self.holders[i].info.copy(),
            None => ShareInfo::new(self.market.outcomes.len()),
        }
    }

    /// Keeps `info` as the position of the wallet `addr`.
    pub fn keep(&mut self, addr: &String, info: ShareInfo)
        requires
            old(self).wf(),
            info.outcomes.len() == old(self).market.outcomes.len(),
        ensures
            final(self).wf(),
            final(self).market == old(self).market,
            final(self)@.holders == put(old(self)@.holders, addr@, info@),
    {
        let ghost es = self@.holders;
        proof {
            lemma_find(es, addr@);
        }
        match self.lookup(addr) {
            Some(i) => {
                self.holders[i].info = info;
                assert(self@.holders =~= es.update(
                    i as int,
                    Entry { addr: addr@, position: info@ },
                ));
            },
            None => {
                self.holders.push(Holder { addr: addr.clone(), info });
            },
        }
    }

    /// Whether every position has a balance for each of the market's outcomes.
    pub open spec fn wf(&self) -> bool {
        forall|k: int|
            0 <= k < self.holders.len() ==> (#[trigger] self.holders[k]).info.outcomes.len()
                == self.market.outcomes.len()
    }
}

/// After `put` the wallet has the position put, and every other wallet the
/// position it had.
pub proof fn lemma_position_after_put(
    es: Seq<Entry>,
    a: Seq<char>,
    p: PositionView,
    b: Seq<char>,
    n: nat,
)
    ensures
        position_of(put(es, a, p), b, n) == if a == b {
            p
        } else {
            position_of(es, b, n)
        },
        find(put(es, a, p), b) is Some <==> a == b || find(es, b) is Some,
        put(es, a, p).len() >= es.len(),
{
    let after = put(es, a, p);
    lemma_find(es, a);
    lemma_find(es, b);
    lemma_find(after, b);
    match find(es, a) {
        Some(i) => {
            lemma_first_is_found(after, b, find(es, b));
        },
        None => {
            if a == b {
                lemma_first_is_found(after, b, Some(es.len() as int));
            } else {
                lemma_first_is_found(after, b, find(es, b));
            }
        },
    }
}

/// An index is what `find` finds if the entry there is the first with the
/// address; and `find` finds nothing if no entry has it.
proof fn lemma_first_is_found(es: Seq<Entry>, addr: Seq<char>, at: Option<int>)
    requires
        match at {
            Some(i) => 0 <= i < es.len() && es[i].addr == addr && forall|j: int|
                0 <= j < i ==> (#[trigger] es[j]).addr != addr,
            None => forall|j: int| 0 <= j < es.len() ==> (#[trigger] es[j]).addr != addr,
        },
    ensures
        find(es, addr) == at,
{
    lemma_find(es, addr);
    match at {
        Some(i) => {
            match find(es, addr) {
                Some(k) => {
                    if k < i {
                        assert(es[k].addr != addr);
                    } else if i < k {
                        assert(es[i].addr == addr);
                    }
                },
                None => {
                    assert(es[i].addr == addr);
                },
            }
        },
        None => {
            match find(es, addr) {
                Some(k) => {
                    assert(es[k].addr != addr);
                },
                None => {},
            }
        },
    }
}

/// The counts of wallets that a market keeps.
pub struct CountsView {
    /// For each outcome the count of wallets that hold tokens of it.
    pub wallets: Seq<nat>,
    /// The count of wallets that hold tokens or shares.
    pub total: nat,
}

/// The counts of wallets that a market keeps, apart from the market.
#[derive(Debug)]
pub struct Counts {
    pub wallets: Vec<u32>,
    pub total: u32,
}

impl View for Counts {
    type V = CountsView;

    open spec fn view(&self) -> CountsView {
        CountsView {
            wallets: Seq::new(self.wallets.len() as nat, |i: int| self.wallets[i] as nat),
            total: self.total as nat,
        }
    }
}

/// A count after a wallet that counted (`was`) or did not has come to count
/// (`does`) or not.
pub open spec fn step(count: nat, was: bool, does: bool) -> int {
    count + (if does && !was {
        1int
    } else {
        0int
    }) - (if was && !does {
        1int
    } else {
        0int
    })
}

/// Whether a count would leave 32 bits when a wallet's position changes.
pub open spec fn counts_overflow(c: CountsView, before: PositionView, after: PositionView) -> bool {
    ||| exists|i: int|
        0 <= i < c.wallets.len() && step(
            #[trigger] c.wallets[i],
            before.tokens[i] > 0,
            after.tokens[i] > 0,
        ) > u32::MAX
    ||| step(c.total, is_active(before), is_active(after)) > u32::MAX
}

/// Whether a count would go below zero when a wallet's position changes.
pub open spec fn counts_underflow(c: CountsView, before: PositionView, after: PositionView) -> bool {
    ||| exists|i: int|
        0 <= i < c.wallets.len() && step(
            #[trigger] c.wallets[i],
            before.tokens[i] > 0,
            after.tokens[i] > 0,
        ) < 0
    ||| step(c.total, is_active(before), is_active(after)) < 0
}

/// Why the counts cannot follow a change of position, if they cannot.
pub open spec fn counts_error(c: CountsView, before: PositionView, after: PositionView) -> Option<
    Error,
> {
    if counts_overflow(c, before, after) {
        Some(Error::Overflow)
    } else if counts_underflow(c, before, after) {
        Some(Error::Underflow)
    } else {
        None
    }
}

/// The counts after a wallet's position changed: an outcome counts one
/// wallet more where the wallet came to hold tokens of it, and one less
/// where it ceased to; the total likewise, by tokens or shares.
pub open spec fn counts_moved(c: CountsView, before: PositionView, after: PositionView) -> CountsView {
    CountsView {
        wallets: Seq::new(
            c.wallets.len(),
            |i: int| step(c.wallets[i], before.tokens[i] > 0, after.tokens[i] > 0) as nat,
        ),
        total: step(c.total, is_active(before), is_active(after)) as nat,
    }
}

impl Counts {
    /// The counts after a wallet's position changed from `before` to `after`.
    pub fn moved(&self, before: &ShareInfo, after: &ShareInfo) -> (r: Result<Counts, Error>)
        requires
            before.outcomes.len() == self.wallets.len(),
            after.outcomes.len() == self.wallets.len(),
        ensures
            match counts_error(self@, before@, after@) {
                Some(e) => r is Err && r->Err_0 == e,
                None => r is Ok && r->Ok_0@ == counts_moved(self@, before@, after@)
                    && r->Ok_0.wallets.len() == self.wallets.len(),
            },
    {
        let ghost c = self@;
        let ghost b = before@;
        let ghost a = after@;
        let n = self.wallets.len();
        let mut wallets: Vec<u32> = Vec::new();
        let mut under = false;
        let mut i: usize = 0;
        while i < n
            invariant
                i <= n,
                n == self.wallets.len(),
                before.outcomes.len() == n,
                after.outcomes.len() == n,
                c == self@,
                b == before@,
                a == after@,
                wallets.len() == i,
                forall|j: int|
                    0 <= j < i ==> step(#[trigger] c.wallets[j], b.tokens[j] > 0, a.tokens[j] > 0)
                        <= u32::MAX,
                under <==> exists|j: int|
                    0 <= j < i && step(#[trigger] c.wallets[j], b.tokens[j] > 0, a.tokens[j] > 0)
                        < 0,
                forall|j: int|
                    0 <= j < i && step(c.wallets[j], b.tokens[j] > 0, a.tokens[j] > 0) >= 0
                        ==> #[trigger] wallets[j] == step(
                        c.wallets[j],
                        b.tokens[j] > 0,
                        a.tokens[j] > 0,
                    ),
            decreases n - i,
        {
            let was = !before.outcomes[i].is_zero();
            let does = !after.outcomes[i].is_zero();
            let count = self.wallets[i];
            assert(count == c.wallets[i as int]);
            if does && !was {
                if count == u32::MAX {
                    return Err(Error::Overflow);
                }
                wallets.push(count + 1);
            } else if was && !does {
                if count == 0 {
                    under = true;
                    wallets.push(0);
                } else {
                    wallets.push(count - 1);
                }
            } else {
                wallets.push(count);
            }
            i = i + 1;
        }
        let was = before.is_active();
        let does = after.is_active();
        let mut total = self.total;
        if does && !was {
            if total == u32::MAX {
                return Err(Error::Overflow);
            }
            total = total + 1;
        } else if was && !does {
            if total == 0 {
                under = true;
            } else {
                total = total - 1;
            }
        }
        if under {
            return Err(Error::Underflow);
        }
        let r = Counts { wallets, total };
        assert(r@.wallets =~= counts_moved(c, b, a).wallets);
        Ok(r)
    }
}

impl StoredMarket {
    /// The counts of wallets that the market keeps.
    pub open spec fn counted(&self) -> CountsView {
        CountsView {
            wallets: Seq::new(self.outcomes.len() as nat, |i: int| self.outcomes[i].wallets as nat),
            total: self.total_wallets as nat,
        }
    }

    /// Whether the market is as `other` in all but the numbers of its pool
    /// and its counts of wallets.
    pub open spec fn same_setup(&self, other: &StoredMarket) -> bool {
        &&& self.id == other.id
        &&& self.title == other.title
        &&& self.description == other.description
        &&& self.arbitrator == other.arbitrator
        &&& self.denom == other.denom
        &&& self.deposit_fee == other.deposit_fee
        &&& self.withdrawal_fee == other.withdrawal_fee
        &&& self.deposit_stop_date == other.deposit_stop_date
        &&& self.withdrawal_stop_date == other.withdrawal_stop_date
        &&& self.winner == other.winner
        &&& self.house == other.house
        &&& self.outcomes.len() == other.outcomes.len()
        &&& forall|i: int|
            0 <= i < self.outcomes.len() ==> (#[trigger] self.outcomes[i]).id == other.outcomes[i].id
                && self.outcomes[i].label == other.outcomes[i].label
    }

    /// Whether the market is as `other` in all but its winner.
    pub open spec fn same_but_winner(&self, other: &StoredMarket) -> bool {
        *self == (StoredMarket { winner: self.winner, ..*other })
    }

    /// A copy of the counts of wallets.
    pub fn counts(&self) -> (r: Counts)
        ensures
            r@ == self.counted(),
            r.wallets.len() == self.outcomes.len(),
    {
        let mut wallets: Vec<u32> = Vec::new();
        let mut i: usize = 0;
        while i < self.outcomes.len()
            invariant
                i <= self.outcomes.len(),
                wallets.len() == i,
                forall|j: int| 0 <= j < i ==> #[trigger] wallets[j] == self.outcomes[j].wallets,
            decreases self.outcomes.len() - i,
        {
            wallets.push(self.outcomes[i].wallets);
            i = i + 1;
        }
        let r = Counts { wallets, total: self.total_wallets };
        assert(r@.wallets =~= self.counted().wallets);
        r
    }

    /// Takes over the numbers of `pool` and the counts `counts`.
    pub fn settle(&mut self, pool: &Pool, counts: &Counts)
        requires
            pool.tokens.len() == old(self).outcomes.len(),
            counts.wallets.len() == old(self).outcomes.len(),
        ensures
            final(self).pool() == pool@,
            final(self).counted() == counts@,
            final(self).same_setup(old(self)),
    {
        self.set_numbers(pool);
        self.total_wallets = counts.total;
        let n = self.outcomes.len();
        let mut i: usize = 0;
        while i < n
            invariant
                i <= n,
                n == self.outcomes.len(),
                counts.wallets.len() == n,
                self.same_setup(old(self)),
                self.pool() == pool@,
                self.total_wallets == counts.total,
                forall|j: int| 0 <= j < i ==> (#[trigger] self.outcomes[j]).wallets == counts.wallets[j],
            decreases n - i,
        {
            let ghost before = self.pool().tokens;
            self.outcomes[i].wallets = counts.wallets[i];
            assert(self.pool().tokens =~= before);
            i = i + 1;
        }
        assert(self.counted().wallets =~= counts@.wallets);
    }
}

impl LedgerView {
    /// The counts of wallets that the market keeps.
    pub open spec fn counts(self) -> CountsView {
        CountsView { wallets: self.wallets, total: self.total_wallets }
    }

    /// The ledger with `after` as the position of the wallet `addr`, which
    /// was `before`; or why the counts cannot follow.
    pub open spec fn replace(
        self,
        addr: Seq<char>,
        before: PositionView,
        after: PositionView,
    ) -> Result<LedgerView, Error> {
        match counts_error(self.counts(), before, after) {
            Some(e) => Err(e),
            None => Ok(
                LedgerView {
                    wallets: counts_moved(self.counts(), before, after).wallets,
                    total_wallets: counts_moved(self.counts(), before, after).total,
                    holders: put(self.holders, addr, after),
                    ..self
                },
            ),
        }
    }

    /// The ledger with `lp` shares and `tokens` of each outcome added to the
    /// position of the wallet `addr`; `Overflow` when a sum does not fit.
    pub open spec fn credit(self, addr: Seq<char>, lp: nat, tokens: Seq<nat>) -> Result<
        LedgerView,
        Error,
    > {
        let before = position_of(self.holders, addr, self.pool.tokens.len());
        if !credit_fits(before, lp, tokens) {
            Err(Error::Overflow)
        } else {
            self.replace(addr, before, credited(before, lp, tokens))
        }
    }

    /// The ledger after the wallet `addr` added `funds` as liquidity: the
    /// pool grows, and the wallet gets the shares minted and the tokens that
    /// do not stay in the pool.
    pub open spec fn provide(self, addr: Seq<char>, funds: nat) -> Result<LedgerView, Error> {
        match liquidity_error(self.pool, funds) {
            Some(e) => Err(e),
            None => LedgerView { pool: with_liquidity(self.pool, funds), ..self }.credit(
                addr,
                minted_shares(self.pool, funds),
                liquidity_returned(self.pool, funds),
            ),
        }
    }
}

impl ShareInfo {
    /// A copy of the position kept for the wallet `addr` in `store`, if one is.
    pub fn load(store: &Ledger, addr: &String) -> (r: Option<ShareInfo>)
        ensures
            match find(store@.holders, addr@) {
                Some(i) => r is Some && r->0@ == store@.holders[i].position
                    && r->0.outcomes.len() == store.holders[i].info.outcomes.len(),
                None => r is None,
            },
    {
        match store.lookup(addr) {
            Some(i) => Some(store.holders[i].info.copy()),
            None => None,
        }
    }

    /// Keeps the position in `store` as that of the wallet `addr`.
    pub fn save(self, store: &mut Ledger, addr: &String)
        requires
            old(store).wf(),
            self.outcomes.len() == old(store).market.outcomes.len(),
        ensures
            final(store).wf(),
            final(store).market == old(store).market,
            final(store)@.holders == put(old(store)@.holders, addr@, self@),
    {
        store.keep(addr, self);
    }
}

impl AddLiquidity {
    /// Hands the shares minted, and the tokens that did not stay in the
    /// pool, to the wallet `sender`, and counts the wallet where it comes to
    /// hold tokens. On an error the ledger is left as it was.
    pub fn assign_to(self, store: &mut Ledger, sender: &String) -> (r: Result<(), Error>)
        requires
            old(store).wf(),
            self.returned_to_user.len() == old(store).market.outcomes.len(),
        ensures
            final(store).wf(),
            match old(store)@.credit(
                sender@,
                self.lp@,
                amounts(self.returned_to_user@),
            ) {
                Err(e) => r is Err && r->Err_0 == e && *final(store) == *old(store),
                Ok(l) => r is Ok && final(store)@ == l && final(store).market.same_setup(
                    &old(store).market,
                ),
            },
    {
        let before = store.position(sender);
        let after = match before.credited(self.lp, &self.returned_to_user) {
            Ok(v) => v,
            Err(e) => { return Err(e); },
        };
        let counts = match store.market.counts().moved(&before, &after) {
            Ok(v) => v,
            Err(e) => { return Err(e); },
        };
        let pool = store.market.numbers();
        store.market.settle(&pool, &counts);
        after.save(store, sender);
        proof {
            let l = old(store)@.credit(
                sender@,
                self.lp@,
                amounts(self.returned_to_user@),
            )->Ok_0;
            assert(store@.outcome_ids =~= l.outcome_ids);
        }
        Ok(())
    }
}

/// What is found in the whole list is found in a prefix that holds it.
proof fn lemma_find_prefix(es: Seq<Entry>, addr: Seq<char>, k: int)
    requires
        0 <= k <= es.len(),
    ensures
        find(es.take(k), addr) is Some ==> find(es, addr) == find(es.take(k), addr),
    decreases es.len(),
{
    if k == es.len() {
        assert(es.take(k) == es);
    } else {
        lemma_find_prefix(es.drop_last(), addr, k);
        assert(es.drop_last().take(k) == es.take(k));
    }
}

} // verus!
