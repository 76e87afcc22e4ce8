//! The constant-product market maker: how liquidity enters a pool, and how
//! tokens are bought from it and sold back to it.

use crate::decimal::{unit, Decimal};
use crate::error::Error;
use crate::math::{
    amounts, lemma_max_of_bounds, lemma_product_monotone, lemma_product_split,
    lemma_product_step, lemma_products_fit_prefix, lemma_share_bounded, max_of, product,
    products_fit,
};
use crate::types::{scaled_fits, scaled_floor, Collateral, LpShare, Token};
use crate::wide::{fits, U256};
use vstd::prelude::*;

verus! {

/// The numbers of a market's pool.
pub struct PoolView {
    /// The tokens of each outcome that the pool holds.
    pub tokens: Seq<nat>,
    /// The collateral that backs the market.
    pub size: nat,
    /// The liquidity shares in issue.
    pub shares: nat,
}

/// The numbers of a market's pool, apart from the market they belong to.
#[derive(Debug)]
pub struct Pool {
    /// The tokens of each outcome that the pool holds.
    pub tokens: Vec<Token>,
    /// The collateral that backs the market.
    pub size: Collateral,
    /// The liquidity shares in issue.
    pub shares: LpShare,
}

impl View for Pool {
    type V = PoolView;

    open spec fn view(&self) -> PoolView {
        PoolView { tokens: amounts(self.tokens@), size: self.size@, shares: self.shares@ }
    }
}

/// What adding liquidity hands out.
#[derive(Debug)]
#[must_use]
pub struct AddLiquidity {
    /// The liquidity shares minted for the provider.
    pub lp: LpShare,
    /// The tokens of each outcome that go to the provider.
    pub returned_to_user: Vec<Token>,
    /// The tokens of each outcome that went into the pool.
    pub added_to_pool: Vec<Token>,
}

/// Of `funds` new tokens of outcome `i`, the part that stays in the pool: the
/// outcome's pool balance in proportion to the largest one.
pub open spec fn pool_share(tokens: Seq<nat>, funds: nat, i: int) -> nat {
    funds * tokens[i] / max_of(tokens)
}

/// The liquidity shares minted for `funds`: in the proportion of `funds` to
/// the largest pool balance.
pub open spec fn minted_shares(p: PoolView, funds: nat) -> nat {
    funds * p.shares / max_of(p.tokens)
}

/// Whether every number met while adding `funds` as liquidity fits 256 bits.
pub open spec fn liquidity_fits(p: PoolView, funds: nat) -> bool {
    &&& fits(p.size + funds)
    &&& forall|i: int|
        0 <= i < p.tokens.len() ==> fits(funds * #[trigger] p.tokens[i]) && fits(
            p.tokens[i] + pool_share(p.tokens, funds, i),
        )
    &&& fits(funds * p.shares)
    &&& fits(p.shares + minted_shares(p, funds))
}

/// Why `funds` cannot be added as liquidity, if they cannot.
pub open spec fn liquidity_error(p: PoolView, funds: nat) -> Option<Error> {
    if max_of(p.tokens) == 0 {
        Some(Error::DivideByZero)
    } else if !liquidity_fits(p, funds) {
        Some(Error::Overflow)
    } else {
        None
    }
}

/// The pool after `funds` were added as liquidity: every balance grows by its
/// share, which leaves the prices as they were.
pub open spec fn with_liquidity(p: PoolView, funds: nat) -> PoolView {
    PoolView {
        tokens: Seq::new(p.tokens.len(), |i: int| p.tokens[i] + pool_share(p.tokens, funds, i)),
        size: p.size + funds,
        shares: p.shares + minted_shares(p, funds),
    }
}

/// The tokens of each outcome that go to the provider of `funds`: what is
/// minted and does not stay in the pool.
pub open spec fn liquidity_returned(p: PoolView, funds: nat) -> Seq<nat> {
    Seq::new(p.tokens.len(), |i: int| (funds - pool_share(p.tokens, funds, i)) as nat)
}

/// The tokens of each outcome that go into the pool with `funds`.
pub open spec fn liquidity_added(p: PoolView, funds: nat) -> Seq<nat> {
    Seq::new(p.tokens.len(), |i: int| pool_share(p.tokens, funds, i))
}

/// What a purchase hands out.
#[derive(Debug)]
#[must_use]
pub struct Buy {
    /// The liquidity shares minted for the buyer.
    pub lp: LpShare,
    /// The tokens of the selected outcome that go to the buyer. Tokens of the
    /// other outcomes are never handed out: they go to the pool.
    pub tokens: Token,
}

/// The balances that the product of the other outcomes is taken over when
/// `funds` buy outcome `selected`: each other outcome's pool balance with
/// every token minted for it, and 1 in place of the selected one.
pub open spec fn others_for(p: PoolView, selected: int, funds: nat) -> Seq<nat> {
    Seq::new(
        p.tokens.len(),
        |j: int|
            if j == selected {
                1nat
            } else {
                p.tokens[j] + funds
            },
    )
}

/// Whether the numbers of the swap fit 256 bits, when `funds` buy outcome
/// `selected` and `liq` of them go in as liquidity: the new pool size, the
/// other outcomes' new balances, and the two products as they are multiplied up.
pub open spec fn swap_fits(p: PoolView, selected: int, funds: nat, liq: nat) -> bool {
    &&& fits(p.size + funds)
    &&& forall|j: int|
        0 <= j < p.tokens.len() && j != selected ==> fits(#[trigger] p.tokens[j] + funds)
    &&& products_fit(with_liquidity(p, liq).tokens)
    &&& products_fit(others_for(p, selected, funds))
}

/// The selected outcome's pool balance after the swap: what keeps the product
/// of all balances where it was before the tokens were minted, rounded down.
pub open spec fn solved_balance(p: PoolView, selected: int, funds: nat, liq: nat) -> nat {
    product(with_liquidity(p, liq).tokens) / product(others_for(p, selected, funds))
}

/// The tokens of outcome `selected` that `funds` buy: those minted for it and
/// those the pool held, less what the pool keeps.
pub open spec fn tokens_bought(p: PoolView, selected: int, funds: nat, liq: nat) -> nat {
    (p.tokens[selected] + funds - solved_balance(p, selected, funds, liq)) as nat
}

/// Why `funds` cannot buy outcome `selected` with the part `ratio` going in
/// as liquidity, if they cannot.
pub open spec fn buy_error(p: PoolView, selected: int, funds: nat, ratio: Decimal) -> Option<
    Error,
> {
    let liq = scaled_floor(funds, ratio@);
    if ratio@ >= unit() {
        Some(Error::InvalidLiquidityRatio { liquidity: ratio })
    } else if !scaled_fits(funds, ratio@) {
        Some(Error::Overflow)
    } else if liquidity_error(p, liq) is Some {
        liquidity_error(p, liq)
    } else if !swap_fits(p, selected, funds, liq) {
        Some(Error::Overflow)
    } else if product(others_for(p, selected, funds)) == 0 {
        Some(Error::DivideByZero)
    } else if !fits(tokens_bought(p, selected, funds, liq)) {
        Some(Error::Overflow)
    } else {
        None
    }
}

/// The pool after `funds` bought outcome `selected`, `liq` of them as liquidity.
pub open spec fn after_buy(p: PoolView, selected: int, funds: nat, liq: nat) -> PoolView {
    PoolView {
        tokens: Seq::new(
            p.tokens.len(),
            |j: int|
                if j == selected {
                    solved_balance(p, selected, funds, liq)
                } else {
                    p.tokens[j] + funds
                },
        ),
        size: p.size + funds,
        shares: p.shares + minted_shares(p, liq),
    }
}

/// The liquidity part of a deposit is at most the deposit, if the ratio is below one.
pub proof fn lemma_liquidity_part_bounded(funds: nat, ratio: nat)
    requires
        ratio < unit(),
    ensures
        scaled_floor(funds, ratio) <= funds,
{
    lemma_share_bounded(funds, ratio, unit());
}

/// The balance that the swap solves for is at most the one that the pool had
/// after the liquidity went in: a purchase never takes tokens from the buyer.
pub proof fn lemma_solved_balance_bounded(p: PoolView, selected: int, funds: nat, liq: nat)
    requires
        0 <= selected < p.tokens.len(),
        max_of(p.tokens) > 0,
        liq <= funds,
        product(others_for(p, selected, funds)) > 0,
    ensures
        solved_balance(p, selected, funds, liq) <= with_liquidity(p, liq).tokens[selected],
{
    let q = with_liquidity(p, liq).tokens;
    let o = others_for(p, selected, funds);
    lemma_product_split(q, selected);
    assert forall|i: int| 0 <= i < q.len() implies q.update(selected, 1)[i] <= o[i] by {
        if i != selected {
            lemma_max_of_bounds(p.tokens, i);
            lemma_share_bounded(liq, p.tokens[i], max_of(p.tokens));
        }
    }
    lemma_product_monotone(q.update(selected, 1), o);
    lemma_share_bounded(q[selected], product(q.update(selected, 1)), product(o));
}

impl AddLiquidity {
    /// Whether this is what adding `funds` to the pool `p` hands out.
    pub open spec fn is_for(&self, p: PoolView, funds: nat) -> bool {
        &&& self.lp@ == minted_shares(p, funds)
        &&& amounts(self.returned_to_user@) == liquidity_returned(p, funds)
        &&& amounts(self.added_to_pool@) == liquidity_added(p, funds)
    }
}

impl Pool {
    /// The largest balance in the pool, by which liquidity is weighed.
    pub fn weight(&self) -> (w: Token)
        ensures
            w@ == max_of(self@.tokens),
    {
        let mut w = Token::zero();
        let mut i: usize = 0;
        while i < self.tokens.len()
            invariant
                i <= self.tokens.len(),
                w@ == max_of(amounts(self.tokens@).take(i as int)),
            decreases self.tokens.len() - i,
        {
            let t = self.tokens[i];
            proof {
                let s = amounts(self.tokens@);
                assert(s.take(i + 1).drop_last() == s.take(i as int));
            }
            if w.0.lt(&t.0) {
                w = t;
            }
            i = i + 1;
        }
        proof {
            let s = amounts(self.tokens@);
            assert(s.take(s.len() as int) == s);
        }
        w
    }

    /// Adds liquidity to the pool without changing prices of assets.
    ///
    /// Each outcome gets `funds` new tokens. Of these the pool keeps a part
    /// in proportion to its balance, and the rest goes to the provider, with
    /// newly minted liquidity shares.
    pub fn add_liquidity(&self, funds: Collateral) -> (r: Result<(Pool, AddLiquidity), Error>)
        ensures
            match liquidity_error(self@, funds@) {
                Some(e) => r is Err && r->Err_0 == e,
                None => r is Ok && r->Ok_0.0@ == with_liquidity(self@, funds@) && r->Ok_0.1.is_for(
                    self@,
                    funds@,
                ),
            },
    {
        let weight = self.weight();
        if weight.is_zero() {
            return Err(Error::DivideByZero);
        }
        let ghost p = self@;
        let size = match self.size.checked_add(funds) {
            Ok(v) => v,
            Err(e) => { return Err(e); },
        };
        let n = self.tokens.len();
        let mut tokens: Vec<Token> = Vec::new();
        let mut added_to_pool: Vec<Token> = Vec::new();
        let mut returned_to_user: Vec<Token> = Vec::new();
        let mut i: usize = 0;
        while i < n
            invariant
                i <= n,
                n == self.tokens.len(),
                p == self@,
                weight@ == max_of(p.tokens),
                weight@ > 0,
                tokens.len() == i,
                added_to_pool.len() == i,
                returned_to_user.len() == i,
                forall|j: int|
                    0 <= j < i ==> fits(funds@ * #[trigger] p.tokens[j]) && fits(
                        p.tokens[j] + pool_share(p.tokens, funds@, j),
                    ),
                forall|j: int|
                    0 <= j < i ==> (#[trigger] tokens[j])@ == p.tokens[j] + pool_share(
                        p.tokens,
                        funds@,
                        j,
                    ),
                forall|j: int|
                    0 <= j < i ==> (#[trigger] added_to_pool[j])@ == pool_share(p.tokens, funds@, j),
                forall|j: int|
                    0 <= j < i ==> (#[trigger] returned_to_user[j])@ == funds@ - pool_share(
                        p.tokens,
                        funds@,
                        j,
                    ),
            decreases n - i,
        {
            let balance = self.tokens[i];
            assert(balance@ == p.tokens[i as int]);
            let scaled = match funds.0.checked_mul(balance.0) {
                Some(v) => v,
                None => { return Err(Error::Overflow); },
            };
            let for_pool = match scaled.checked_div(weight.0) {
                Some(v) => v,
                None => { return Err(Error::DivideByZero); },
            };
            let grown = match balance.0.checked_add(for_pool) {
                Some(v) => v,
                None => { return Err(Error::Overflow); },
            };
            proof {
                lemma_max_of_bounds(p.tokens, i as int);
                lemma_share_bounded(funds@, balance@, weight@);
            }
            let rest = match funds.0.checked_sub(for_pool) {
                Some(v) => v,
                None => { return Err(Error::Underflow); },
            };
            tokens.push(Token(grown));
            added_to_pool.push(Token(for_pool));
            returned_to_user.push(Token(rest));
            i = i + 1;
        }
        let scaled = match funds.0.checked_mul(self.shares.0) {
            Some(v) => v,
            None => { return Err(Error::Overflow); },
        };
        let lp = match scaled.checked_div(weight.0) {
            Some(v) => LpShare(v),
            None => { return Err(Error::DivideByZero); },
        };
        let shares = match self.shares.checked_add(lp) {
            Ok(v) => v,
            Err(e) => { return Err(e); },
        };
        let next = Pool { tokens, size, shares };
        let minted = AddLiquidity { lp, returned_to_user, added_to_pool };
        proof {
            assert(next@.tokens =~= with_liquidity(p, funds@).tokens);
            assert(amounts(minted.returned_to_user@) =~= liquidity_returned(p, funds@));
            assert(amounts(minted.added_to_pool@) =~= liquidity_added(p, funds@));
        }
        Ok((next, minted))
    }

    /// Place a bet on the outcome at index `selected`.
    ///
    /// The part `liquidity` of `funds` goes to the pool as liquidity. A full
    /// set of tokens is minted for the rest. All tokens of the other outcomes
    /// go to the pool, and the buyer gets as many tokens of the selected
    /// outcome as leave the product of the pool's balances where it was.
    pub fn buy(&self, selected: usize, funds: Collateral, liquidity: Decimal) -> (r: Result<
        (Pool, Buy),
        Error,
    >)
        requires
            selected < self.tokens.len(),
        ensures
            match buy_error(self@, selected as int, funds@, liquidity) {
                Some(e) => r is Err && r->Err_0 == e,
                None => r is Ok && r->Ok_0.0@ == after_buy(
                    self@,
                    selected as int,
                    funds@,
                    scaled_floor(funds@, liquidity@),
                ) && r->Ok_0.1.lp@ == minted_shares(self@, scaled_floor(funds@, liquidity@))
                    && r->Ok_0.1.tokens@ == tokens_bought(
                    self@,
                    selected as int,
                    funds@,
                    scaled_floor(funds@, liquidity@),
                ),
            },
    {
        let ghost p = self@;
        let ghost s = selected as int;
        if !liquidity.atomics.lt(&Decimal::one().atomics) {
            return Err(Error::InvalidLiquidityRatio { liquidity });
        }
        let liq = match funds.mul_floor(liquidity) {
            Ok(v) => v,
            Err(e) => { return Err(e); },
        };
        let (q, minted) = match self.add_liquidity(liq) {
            Ok(v) => v,
            Err(e) => { return Err(e); },
        };
        proof {
            lemma_liquidity_part_bounded(funds@, liquidity@);
        }
        let rest = match funds.checked_sub(liq) {
            Ok(v) => v,
            Err(e) => { return Err(e); },
        };
        let size = match q.size.checked_add(rest) {
            Ok(v) => v,
            Err(e) => { return Err(e); },
        };
        let ghost others_seq = others_for(p, s, funds@);
        let n = q.tokens.len();
        assert(amounts(minted.returned_to_user@).len() == n);
        let mut tokens: Vec<Token> = Vec::new();
        let mut whole = U256::one();
        let mut others = U256::one();
        let mut i: usize = 0;
        while i < n
            invariant
                i <= n,
                n == q.tokens.len(),
                n == p.tokens.len(),
                p == self@,
                s == selected as int,
                0 <= s < n,
                q@ == with_liquidity(p, liq@),
                minted.is_for(p, liq@),
                minted.returned_to_user.len() == n,
                liquidity@ < unit(),
                scaled_fits(funds@, liquidity@),
                liq@ == scaled_floor(funds@, liquidity@),
                fits(p.size + funds@),
                liquidity_error(p, liq@) is None,
                liq@ + rest@ == funds@,
                others_seq == others_for(p, s, funds@),
                tokens.len() == i,
                whole@ == product(q@.tokens.take(i as int)),
                products_fit(q@.tokens.take(i as int)),
                others@ == product(others_seq.take(i as int)),
                products_fit(others_seq.take(i as int)),
                forall|j: int| 0 <= j < i && j != s ==> fits(#[trigger] p.tokens[j] + funds@),
                forall|j: int|
                    0 <= j < i && j != s ==> (#[trigger] tokens[j])@ == p.tokens[j] + funds@,
            decreases n - i,
        {
            let balance = q.tokens[i];
            proof {
                lemma_product_step(q@.tokens, i as int);
                lemma_product_step(others_seq, i as int);
            }
            whole = match whole.checked_mul(balance.0) {
                Some(v) => v,
                None => {
                    proof {
                        if products_fit(q@.tokens) {
                            lemma_products_fit_prefix(q@.tokens, i + 1);
                        }
                    }
                    return Err(Error::Overflow);
                },
            };
            if i != selected {
                let back = minted.returned_to_user[i];
                proof {
                    assert(back@ == liquidity_returned(p, liq@)[i as int]);
                    lemma_max_of_bounds(p.tokens, i as int);
                    lemma_share_bounded(liq@, p.tokens[i as int], max_of(p.tokens));
                }
                let pending = match back.0.checked_add(rest.0) {
                    Some(v) => v,
                    None => { return Err(Error::Overflow); },
                };
                assert(balance@ + pending@ == p.tokens[i as int] + funds@);
                let grown = match balance.0.checked_add(pending) {
                    Some(v) => v,
                    None => { return Err(Error::Overflow); },
                };
                others = match others.checked_mul(grown) {
                    Some(v) => v,
                    None => {
                        proof {
                            if products_fit(others_seq) {
                                lemma_products_fit_prefix(others_seq, i + 1);
                            }
                        }
                        return Err(Error::Overflow);
                    },
                };
                tokens.push(Token(grown));
            } else {
                tokens.push(balance);
            }
            i = i + 1;
        }
        proof {
            assert(q@.tokens.take(n as int) == q@.tokens);
            assert(others_seq.take(n as int) == others_seq);
        }
        let solved = match whole.checked_div(others) {
            Some(v) => v,
            None => { return Err(Error::DivideByZero); },
        };
        assert(solved@ == solved_balance(p, s, funds@, liq@));
        proof {
            lemma_solved_balance_bounded(p, s, funds@, liq@);
            lemma_max_of_bounds(p.tokens, s);
            lemma_share_bounded(liq@, p.tokens[s], max_of(p.tokens));
        }
        let held = q.tokens[selected];
        let back = minted.returned_to_user[selected];
        assert(back@ == liquidity_returned(p, liq@)[s]);
        let released = match held.checked_sub(Token(solved)) {
            Ok(v) => v,
            Err(e) => { return Err(e); },
        };
        let pending = match back.0.checked_add(rest.0) {
            Some(v) => v,
            None => { return Err(Error::Overflow); },
        };
        assert(pending@ + released@ == tokens_bought(p, s, funds@, liq@));
        let bought = match pending.checked_add(released.0) {
            Some(v) => v,
            None => { return Err(Error::Overflow); },
        };
        tokens.set(selected, Token(solved));
        let next = Pool { tokens, size, shares: q.shares };
        proof {
            assert(next@.tokens =~= after_buy(p, s, funds@, liq@).tokens);
        }
        Ok((next, Buy { lp: minted.lp, tokens: Token(bought) }))
    }
}

} // verus!
