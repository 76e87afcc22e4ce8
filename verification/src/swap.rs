//! Selling tokens back to a pool of two outcomes.
//!
//! Tokens of one outcome alone cannot be redeemed: collateral is paid out for
//! full sets only. So part of the tokens is sold to the pool for tokens of
//! the other outcome, at the constant product, and the sets that result are
//! redeemed. How many to sell is the smaller root of a quadratic equation.

use crate::cpmm::{Pool, PoolView};
use crate::decimal::{decimal_sqrt, lemma_scaled_product, unit, Decimal};
use crate::error::Error;
use crate::math::{amounts, lemma_share_bounded};
use crate::types::{Collateral, Token};
use crate::wide::{fits, U256};
use vstd::arithmetic::div_mod::{
    lemma_div_is_ordered, lemma_div_multiples_vanish, lemma_div_multiples_vanish_quotient,
};
use vstd::prelude::*;

verus! {

/// What a sale hands out.
#[derive(Debug)]
#[must_use]
pub struct Sell {
    /// Funds the user will receive for the sale
    pub funds: Collateral,
    /// Any tokens returned to the user from this sale
    pub returned: Vec<Token>,
}

/// The fixed-point numbers that a sale starts from.
#[derive(Debug)]
pub struct Quadratic {
    /// The pool's balance of the outcome sold.
    pub pool_selected: Decimal,
    /// The pool's balance of the other outcome.
    pub pool_unselected: Decimal,
    /// The tokens to sell.
    pub tokens: Decimal,
    /// The sum of the three: the equation's linear coefficient, negated.
    pub negb: Decimal,
    /// The equation's discriminant.
    pub discriminant: Decimal,
    /// The product of the two balances.
    pub product: Decimal,
}

/// Whether the numbers of a sale of `t` tokens to a pool with the balances
/// `ps` and `pu` fit 256 bits of atomic units. The square of their sum is the
/// largest of them.
pub open spec fn sell_fits(ps: nat, pu: nat, t: nat) -> bool {
    fits((ps + t + pu) * (ps + t + pu) * unit())
}

/// The atomic units of the discriminant of `x^2 - (ps + t + pu) x + t pu = 0`.
pub open spec fn sell_discriminant(ps: nat, pu: nat, t: nat) -> nat {
    (((ps + t + pu) * (ps + t + pu) - 4 * t * pu) * unit()) as nat
}

/// The atomic units of the discriminant's square root, as it is computed.
pub open spec fn sell_root(ps: nat, pu: nat, t: nat) -> nat {
    decimal_sqrt(sell_discriminant(ps, pu, t))
}

/// The atomic units of the equation's smaller root, `(-b - root) / 2`: the
/// tokens to keep out of the pool.
pub open spec fn smaller_root(ps: nat, pu: nat, t: nat, root: nat) -> nat {
    (((ps + t + pu) * unit() - root) / 2) as nat
}

/// The tokens that go to the pool: all but the smaller root, rounded down.
pub open spec fn tokens_sold(ps: nat, pu: nat, t: nat, root: nat) -> nat {
    ((t * unit() - smaller_root(ps, pu, t, root)) / (unit() as int)) as nat
}

/// The atomic units of the other outcome's balance that keeps the product of
/// the two where it was, once `sold` tokens went to the pool.
pub open spec fn other_kept(ps: nat, pu: nat, sold: nat) -> nat {
    ps * pu * unit() / (ps + sold)
}

/// The tokens of the other outcome that the pool gives for `sold`, rounded down.
pub open spec fn tokens_swapped(ps: nat, pu: nat, sold: nat) -> nat {
    ((pu * unit() - other_kept(ps, pu, sold)) / (unit() as int)) as nat
}

/// The smaller of two numbers.
pub open spec fn least(a: nat, b: nat) -> nat {
    if a <= b {
        a
    } else {
        b
    }
}

/// The full sets that a sale redeems, one unit of collateral each: as many as
/// there are tokens of both outcomes outside the pool.
pub open spec fn sets_redeemed(ps: nat, pu: nat, t: nat, root: nat) -> nat {
    let sold = tokens_sold(ps, pu, t, root);
    least((t - sold) as nat, tokens_swapped(ps, pu, sold))
}

/// Why `t` tokens of outcome `selected` cannot be sold, if they cannot, where
/// `root` is the discriminant's square root in atomic units.
pub open spec fn sell_error(p: PoolView, selected: int, t: nat, root: nat) -> Option<Error> {
    if p.tokens.len() != 2 {
        Some(Error::UnsupportedOutcomeCount { total_outcomes: p.tokens.len() as usize })
    } else {
        let ps = p.tokens[selected];
        let pu = p.tokens[1 - selected];
        let sold = tokens_sold(ps, pu, t, root);
        if !sell_fits(ps, pu, t) {
            Some(Error::Overflow)
        } else if root > (ps + t + pu) * unit() {
            Some(Error::Underflow)
        } else if smaller_root(ps, pu, t, root) > t * unit() {
            Some(Error::Underflow)
        } else if ps + sold == 0 {
            Some(Error::DivideByZero)
        } else if sets_redeemed(ps, pu, t, root) > p.size {
            Some(Error::Underflow)
        } else {
            None
        }
    }
}

/// The pool after `t` tokens of outcome `selected` were sold.
pub open spec fn after_sell(p: PoolView, selected: int, t: nat, root: nat) -> PoolView {
    let ps = p.tokens[selected];
    let pu = p.tokens[1 - selected];
    let sold = tokens_sold(ps, pu, t, root);
    PoolView {
        tokens: Seq::new(
            2,
            |j: int|
                if j == selected {
                    ps + sold
                } else {
                    (pu - tokens_swapped(ps, pu, sold)) as nat
                },
        ),
        size: (p.size - sets_redeemed(ps, pu, t, root)) as nat,
        shares: p.shares,
    }
}

/// The tokens of each outcome that a sale hands back: what is outside the
/// pool and in no full set.
pub open spec fn sell_returned(p: PoolView, selected: int, t: nat, root: nat) -> Seq<nat> {
    let ps = p.tokens[selected];
    let pu = p.tokens[1 - selected];
    let sold = tokens_sold(ps, pu, t, root);
    let sets = sets_redeemed(ps, pu, t, root);
    Seq::new(
        2,
        |j: int|
            if j == selected {
                (t - sold - sets) as nat
            } else {
                (tokens_swapped(ps, pu, sold) - sets) as nat
            },
    )
}

/// `a` whole units times `b` whole units are `a * b` whole units.
proof fn lemma_whole_product(a: nat, b: nat)
    ensures
        (a * unit()) * (b * unit()) / unit() == a * b * unit(),
{
    lemma_scaled_product(a, b * unit());
    assert(a * (b * unit()) == a * b * unit()) by (nonlinear_arith);
}

/// What fits when the square of the sum does.
proof fn lemma_sell_bounds(ps: nat, pu: nat, t: nat)
    requires
        sell_fits(ps, pu, t),
    ensures
        fits(ps * unit()),
        fits(pu * unit()),
        fits(t * unit()),
        fits((ps + t) * unit()),
        fits((ps + t + pu) * unit()),
        fits((ps + t) * pu * unit()),
        fits(ps * pu * unit()),
        fits(4 * (t * pu * unit())),
        4 * t * pu <= (ps + t + pu) * (ps + t + pu),
{
    let s = ps + t + pu;
    let u = unit();
    assert(s <= s * s) by (nonlinear_arith);
    assert(ps * u <= s * s * u && pu * u <= s * s * u && t * u <= s * s * u && (ps + t) * u <= s
        * s * u && s * u <= s * s * u) by (nonlinear_arith)
        requires
            s == ps + t + pu,
            s <= s * s,
            u > 0,
    ;
    assert((ps + t) * pu <= s * s && ps * pu <= s * s && 4 * t * pu <= s * s) by (nonlinear_arith)
        requires
            s == ps + t + pu,
    ;
    assert((ps + t) * pu * u <= s * s * u && ps * pu * u <= s * s * u && 4 * (t * pu * u) <= s * s
        * u) by (nonlinear_arith)
        requires
            (ps + t) * pu <= s * s,
            ps * pu <= s * s,
            4 * t * pu <= s * s,
            u > 0,
    ;
}

impl Quadratic {
    /// Whether these are the numbers for a sale of `t` tokens to a pool with
    /// the balances `ps` and `pu`.
    pub open spec fn is_for(&self, ps: nat, pu: nat, t: nat) -> bool {
        &&& self.pool_selected@ == ps * unit()
        &&& self.pool_unselected@ == pu * unit()
        &&& self.tokens@ == t * unit()
        &&& self.negb@ == (ps + t + pu) * unit()
        &&& self.discriminant@ == sell_discriminant(ps, pu, t)
        &&& self.product@ == ps * pu * unit()
    }

    /// The numbers for a sale of `tokens` to a pool with the given balances;
    /// `Overflow` when they do not fit.
    pub fn new(pool_selected: Token, pool_unselected: Token, tokens: Token) -> (r: Result<
        Quadratic,
        Error,
    >)
        ensures
            r is Ok <==> sell_fits(pool_selected@, pool_unselected@, tokens@),
            r is Ok ==> r->Ok_0.is_for(pool_selected@, pool_unselected@, tokens@),
            r is Err ==> r->Err_0 == Error::Overflow,
    {
        let ghost ps = pool_selected@;
        let ghost pu = pool_unselected@;
        let ghost t = tokens@;
        proof {
            if sell_fits(ps, pu, t) {
                lemma_sell_bounds(ps, pu, t);
            }
            lemma_whole_product(ps + t, pu);
            lemma_whole_product(ps, pu);
            lemma_whole_product(ps + t + pu, ps + t + pu);
            lemma_scaled_product(4, t * pu * unit());
            assert((ps + t) * pu * unit() - ps * pu * unit() == t * pu * unit())
                by (nonlinear_arith);
            assert((ps + t + pu) * (ps + t + pu) * unit() - 4 * (t * pu * unit()) == ((ps + t + pu)
                * (ps + t + pu) - 4 * t * pu) * unit()) by (nonlinear_arith);
        }
        let dec_ps = match pool_selected.to_decimal256() {
            Ok(v) => v,
            Err(e) => { return Err(e); },
        };
        let dec_pu = match pool_unselected.to_decimal256() {
            Ok(v) => v,
            Err(e) => { return Err(e); },
        };
        let dec_t = match tokens.to_decimal256() {
            Ok(v) => v,
            Err(e) => { return Err(e); },
        };
        // If we put all of the tokens we're trying to liquidate in the pool,
        // what would be the size?
        let new_ps = match dec_ps.checked_add(dec_t) {
            Some(v) => v,
            None => { return Err(Error::Overflow); },
        };
        // b is always negative, so its negation is tracked instead.
        let negb = match new_ps.checked_add(dec_pu) {
            Some(v) => v,
            None => { return Err(Error::Overflow); },
        };
        let grown = match new_ps.checked_mul(dec_pu) {
            Some(v) => v,
            None => { return Err(Error::Overflow); },
        };
        let product = match dec_ps.checked_mul(dec_pu) {
            Some(v) => v,
            None => { return Err(Error::Overflow); },
        };
        let c = match grown.checked_sub(product) {
            Some(v) => v,
            None => { return Err(Error::Overflow); },
        };
        let square = match negb.checked_mul(negb) {
            Some(v) => v,
            None => { return Err(Error::Overflow); },
        };
        let four = match Decimal::from_uint(U256::from_u128(4)) {
            Some(v) => v,
            None => { return Err(Error::Overflow); },
        };
        let four_c = match four.checked_mul(c) {
            Some(v) => v,
            None => { return Err(Error::Overflow); },
        };
        let discriminant = match square.checked_sub(four_c) {
            Some(v) => v,
            None => { return Err(Error::Overflow); },
        };
        Ok(
            Quadratic {
                pool_selected: dec_ps,
                pool_unselected: dec_pu,
                tokens: dec_t,
                negb,
                discriminant,
                product,
            },
        )
    }
}

/// Half of a ratio, as the division by two gives it.
proof fn lemma_halved(x: nat)
    ensures
        x * unit() / (2 * unit()) == x / 2,
        x / 2 <= x,
{
    lemma_div_multiples_vanish_quotient(unit() as int, x as int, 2);
}

/// The whole units of at most `t` whole units are at most `t`.
proof fn lemma_floor_bounded(x: nat, t: nat)
    requires
        x <= t * unit(),
    ensures
        x / unit() <= t,
{
    lemma_div_is_ordered(x as int, (t * unit()) as int, unit() as int);
    lemma_div_multiples_vanish(t as int, unit() as int);
}

/// The balance that keeps the product, as the division of ratios gives it;
/// it is at most the balance before.
proof fn lemma_other_kept(ps: nat, pu: nat, sold: nat)
    requires
        ps + sold > 0,
    ensures
        (ps * pu * unit()) * unit() / ((ps + sold) * unit()) == other_kept(ps, pu, sold),
        other_kept(ps, pu, sold) <= pu * unit(),
{
    let a = ps * pu * unit();
    let d = ps + sold;
    lemma_div_multiples_vanish_quotient(unit() as int, a as int, d as int);
    lemma_share_bounded(pu * unit(), ps, d);
    assert((pu * unit()) * ps == ps * pu * unit()) by (nonlinear_arith);
}

/// The balance that keeps the product is at most the balance before.
pub proof fn lemma_kept_bounded(ps: nat, pu: nat, sold: nat)
    requires
        ps + sold > 0,
    ensures
        other_kept(ps, pu, sold) <= pu * unit(),
{
    lemma_other_kept(ps, pu, sold);
}

/// In a sale that goes through, no more tokens go to the pool than were
/// given up, and the pool gives no more of the other outcome than it has.
pub proof fn lemma_sale_bounded(ps: nat, pu: nat, t: nat, root: nat)
    requires
        smaller_root(ps, pu, t, root) <= t * unit(),
        ps + tokens_sold(ps, pu, t, root) > 0,
    ensures
        tokens_sold(ps, pu, t, root) <= t,
        tokens_swapped(ps, pu, tokens_sold(ps, pu, t, root)) <= pu,
        sets_redeemed(ps, pu, t, root) <= t - tokens_sold(ps, pu, t, root),
        sets_redeemed(ps, pu, t, root) <= tokens_swapped(ps, pu, tokens_sold(ps, pu, t, root)),
{
    let sold = tokens_sold(ps, pu, t, root);
    lemma_floor_bounded((t * unit() - smaller_root(ps, pu, t, root)) as nat, t);
    lemma_other_kept(ps, pu, sold);
    lemma_floor_bounded((pu * unit() - other_kept(ps, pu, sold)) as nat, pu);
}

impl Pool {
    /// Burns the given number of tokens for the given outcome, where `root`
    /// is the square root of the sale's discriminant.
    ///
    /// Returns the amount of liquidity freed up, and the tokens that are left over.
    pub fn sell_with_root(&self, selected: usize, tokens: Token, root: Decimal) -> (r: Result<
        (Pool, Sell),
        Error,
    >)
        requires
            selected < self.tokens.len(),
        ensures
            match sell_error(self@, selected as int, tokens@, root@) {
                Some(e) => r is Err && r->Err_0 == e,
                None => r is Ok && r->Ok_0.0@ == after_sell(
                    self@,
                    selected as int,
                    tokens@,
                    root@,
                ) && r->Ok_0.1.funds@ == sets_redeemed(
                    self@.tokens[selected as int],
                    self@.tokens[1 - selected],
                    tokens@,
                    root@,
                ) && amounts(r->Ok_0.1.returned@) == sell_returned(
                    self@,
                    selected as int,
                    tokens@,
                    root@,
                ),
            },
    {
        if self.tokens.len() != 2 {
            return Err(Error::UnsupportedOutcomeCount { total_outcomes: self.tokens.len() });
        }
        let unselected: usize = 1 - selected;
        let pool_selected = self.tokens[selected];
        let pool_unselected = self.tokens[unselected];
        let ghost p = self@;
        let ghost ps = pool_selected@;
        let ghost pu = pool_unselected@;
        let ghost t = tokens@;
        let q = match Quadratic::new(pool_selected, pool_unselected, tokens) {
            Ok(v) => v,
            Err(e) => { return Err(e); },
        };
        proof {
            lemma_sell_bounds(ps, pu, t);
        }
        // There are two roots for quadratic equations, but we always take the lower value.
        let gap = match q.negb.checked_sub(root) {
            Some(v) => v,
            None => { return Err(Error::Underflow); },
        };
        let two = match Decimal::from_uint(U256::from_u128(2)) {
            Some(v) => v,
            None => { return Err(Error::Overflow); },
        };
        proof {
            lemma_halved(gap@);
        }
        let selected_to_burn = match gap.checked_div(two) {
            Ok(v) => v,
            Err(e) => { return Err(e); },
        };
        let selected_to_sell = match q.tokens.checked_sub(selected_to_burn) {
            Some(v) => v,
            None => { return Err(Error::Underflow); },
        };
        // We can only sell integer values, not fractions. We want to round down the amount
        // we're going to sell.
        let sold = Token(selected_to_sell.to_uint_floor());
        proof {
            lemma_floor_bounded(selected_to_sell@, t);
            assert(sold@ * unit() <= t * unit()) by (nonlinear_arith)
                requires
                    sold@ <= t,
            ;
            assert((ps + sold@) * unit() == ps * unit() + sold@ * unit()) by (nonlinear_arith);
            assert((ps + sold@) * unit() <= (ps + t) * unit()) by (nonlinear_arith)
                requires
                    sold@ <= t,
            ;
        }
        let burned = match tokens.checked_sub(sold) {
            Ok(v) => v,
            Err(e) => { return Err(e); },
        };
        // Now calculate how many unselected tokens we end up buying. This is determined
        // by respecting the CPMM invariant.
        let dec_sold = match sold.to_decimal256() {
            Ok(v) => v,
            Err(e) => { return Err(e); },
        };
        let final_selected = match q.pool_selected.checked_add(dec_sold) {
            Some(v) => v,
            None => { return Err(Error::Overflow); },
        };
        proof {
            if ps + sold@ > 0 {
                lemma_other_kept(ps, pu, sold@);
                assert((ps + sold@) * unit() > 0) by (nonlinear_arith)
                    requires
                        ps + sold@ > 0,
                ;
            } else {
                assert((ps + sold@) * unit() == 0) by (nonlinear_arith)
                    requires
                        ps + sold@ == 0,
                ;
            }
        }
        let final_unselected = match q.product.checked_div(final_selected) {
            Ok(v) => v,
            Err(e) => { return Err(e); },
        };
        let left = match q.pool_unselected.checked_sub(final_unselected) {
            Some(v) => v,
            None => { return Err(Error::Underflow); },
        };
        let swapped = Token(left.to_uint_floor());
        proof {
            lemma_floor_bounded(left@, pu);
        }
        // Update the liquidity pool with token count changes.
        let new_selected = match pool_selected.checked_add(sold) {
            Ok(v) => v,
            Err(e) => { return Err(e); },
        };
        let new_unselected = match pool_unselected.checked_sub(swapped) {
            Ok(v) => v,
            Err(e) => { return Err(e); },
        };
        // We'll redeem as many of these tokens as possible for collateral.
        // The remainder will be given back to the user.
        let to_redeem = burned.0.min(swapped.0);
        let selected_returned = match burned.0.checked_sub(to_redeem) {
            Some(v) => Token(v),
            None => { return Err(Error::Underflow); },
        };
        let unselected_returned = match swapped.0.checked_sub(to_redeem) {
            Some(v) => Token(v),
            None => { return Err(Error::Underflow); },
        };
        let funds = Collateral(to_redeem);
        let size = match self.size.checked_sub(funds) {
            Ok(v) => v,
            Err(e) => { return Err(e); },
        };
        let mut pool: Vec<Token> = Vec::new();
        let mut returned: Vec<Token> = Vec::new();
        if selected == 0 {
            pool.push(new_selected);
            pool.push(new_unselected);
            returned.push(selected_returned);
            returned.push(unselected_returned);
        } else {
            pool.push(new_unselected);
            pool.push(new_selected);
            returned.push(unselected_returned);
            returned.push(selected_returned);
        }
        let next = Pool { tokens: pool, size, shares: self.shares };
        proof {
            assert(next@.tokens =~= after_sell(p, selected as int, t, root@).tokens);
        }
        Ok((next, Sell { funds, returned }))
    }

    /// Burns the given number of tokens for the given outcome.
    ///
    /// Returns the amount of liquidity freed up, and the tokens that are left over.
    pub fn sell(&self, selected: usize, tokens: Token) -> (r: Result<(Pool, Sell), Error>)
        requires
            selected < self.tokens.len(),
        ensures
            self@.tokens.len() == 2 ==> (match sell_error(
                self@,
                selected as int,
                tokens@,
                sell_root(self@.tokens[selected as int], self@.tokens[1 - selected], tokens@),
            ) {
                Some(e) => r is Err && r->Err_0 == e,
                None => r is Ok && r->Ok_0.0@ == after_sell(
                    self@,
                    selected as int,
                    tokens@,
                    sell_root(self@.tokens[selected as int], self@.tokens[1 - selected], tokens@),
                ) && r->Ok_0.1.funds@ == sets_redeemed(
                    self@.tokens[selected as int],
                    self@.tokens[1 - selected],
                    tokens@,
                    sell_root(self@.tokens[selected as int], self@.tokens[1 - selected], tokens@),
                ) && amounts(r->Ok_0.1.returned@) == sell_returned(
                    self@,
                    selected as int,
                    tokens@,
                    sell_root(self@.tokens[selected as int], self@.tokens[1 - selected], tokens@),
                ),
            }),
            self@.tokens.len() != 2 ==> r is Err && r->Err_0 == (Error::UnsupportedOutcomeCount {
                total_outcomes: self.tokens.len(),
            }),
    {
        if self.tokens.len() != 2 {
            return Err(Error::UnsupportedOutcomeCount { total_outcomes: self.tokens.len() });
        }
        let q = match Quadratic::new(self.tokens[selected], self.tokens[1 - selected], tokens) {
            Ok(v) => v,
            Err(e) => { return Err(e); },
        };
        let root = q.discriminant.sqrt();
        self.sell_with_root(selected, tokens, root)
    }
}

} // verus!
