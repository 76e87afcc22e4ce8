//! What holds of every purchase and every sale.

use crate::cpmm::{
    after_buy, buy_error, others_for, solved_balance, tokens_bought, with_liquidity, PoolView,
};
use crate::decimal::{unit, Decimal};
use crate::ledger::{find, held, lemma_find, shares_held, total, Entry, LedgerView};
use crate::math::{lemma_product_split, max_of, product};
use crate::sanity::lemma_position_shaped;
use crate::state::{entitlement, pool_entitlement, PositionView};
use crate::swap::{
    after_sell, lemma_kept_bounded, lemma_sale_bounded, other_kept, sell_error, tokens_sold,
    tokens_swapped,
};
use crate::types::{scaled_floor, OutcomeId, Timestamp};
use vstd::arithmetic::div_mod::lemma_fundamental_div_mod;
use vstd::prelude::*;

verus! {

/// The product of two balances.
proof fn lemma_product_of_two(s: Seq<nat>)
    requires
        s.len() == 2,
    ensures
        product(s) == s[0] * s[1],
{
    let front = s.drop_last();
    assert(front.len() == 1);
    assert(front.drop_last().len() == 0);
    assert(product(front.drop_last()) == 1);
    assert(product(front) == 1 * front[0]);
    assert(front[0] == s[0]);
}

/// A quotient rounded down, times the divisor, is within the divisor of the dividend.
proof fn lemma_floor_within(n: nat, d: nat)
    requires
        d > 0,
    ensures
        (n / d) * d <= n < (n / d) * d + d,
{
    lemma_fundamental_div_mod(n as int, d as int);
    assert(d * (n / d) == (n / d) * d) by (nonlinear_arith);
}

/// A purchase moves the product of the pool's balances only by what its
/// liquidity part adds, and by rounding.
///
/// After the purchase the product is at most what it was when the liquidity
/// part had gone in, and falls short of it by less than the product of the
/// other outcomes' balances: by less than one token of the selected outcome.
pub proof fn law_buy_keeps_product(p: PoolView, selected: int, funds: nat, ratio: Decimal)
    requires
        0 <= selected < p.tokens.len(),
        buy_error(p, selected, funds, ratio) is None,
    ensures
        ({
            let liq = scaled_floor(funds, ratio@);
            let after = product(after_buy(p, selected, funds, liq).tokens);
            let before = product(with_liquidity(p, liq).tokens);
            after <= before < after + product(others_for(p, selected, funds))
        }),
{
    let liq = scaled_floor(funds, ratio@);
    let after = after_buy(p, selected, funds, liq).tokens;
    let others = others_for(p, selected, funds);
    lemma_product_split(after, selected);
    assert(after.update(selected, 1) =~= others);
    lemma_floor_within(product(with_liquidity(p, liq).tokens), product(others));
    assert(after[selected] == solved_balance(p, selected, funds, liq));
    assert(after[selected] * product(others) == product(after));
}

/// A purchase with no funds changes nothing: the pool's balances, and so
/// their product, the collateral and the shares in issue stay as they are.
pub proof fn law_buy_of_nothing(p: PoolView, selected: int, ratio: Decimal)
    requires
        0 <= selected < p.tokens.len(),
        buy_error(p, selected, 0, ratio) is None,
    ensures
        scaled_floor(0, ratio@) == 0,
        after_buy(p, selected, 0, 0) == p,
        tokens_bought(p, selected, 0, 0) == 0,
{
    let w = max_of(p.tokens);
    assert(0 * ratio@ == 0) by (nonlinear_arith);
    assert(scaled_floor(0, ratio@) == 0);
    assert(0 * p.shares == 0) by (nonlinear_arith);
    assert forall|i: int| 0 <= i < p.tokens.len() implies 0 * #[trigger] p.tokens[i] / w == 0 by {
        assert(0 * p.tokens[i] == 0) by (nonlinear_arith);
    }
    let grown = with_liquidity(p, 0).tokens;
    assert(grown =~= p.tokens);
    let others = others_for(p, selected, 0);
    assert(others =~= p.tokens.update(selected, 1));
    lemma_product_split(p.tokens, selected);
    let o = product(others);
    let x = p.tokens[selected];
    assert((x * o) / o == x) by (nonlinear_arith)
        requires
            o > 0,
    ;
    assert(after_buy(p, selected, 0, 0).tokens =~= p.tokens);
}

/// A sale keeps the product of the pool's two balances, up to rounding.
///
/// After the sale the product is less than one token of the other outcome
/// above what it was, and less than one atomic unit of such a token below.
pub proof fn law_sale_keeps_product(p: PoolView, selected: int, t: nat, root: nat)
    requires
        0 <= selected < 2,
        sell_error(p, selected, t, root) is None,
    ensures
        ({
            let ps = p.tokens[selected];
            let pu = p.tokens[1 - selected];
            let grown = ps + tokens_sold(ps, pu, t, root);
            let after = product(after_sell(p, selected, t, root).tokens);
            &&& after < ps * pu + grown
            &&& after * unit() + grown > ps * pu * unit()
        }),
{
    let ps = p.tokens[selected];
    let pu = p.tokens[1 - selected];
    let sold = tokens_sold(ps, pu, t, root);
    let d = ps + sold;
    let u = unit();
    let kept = other_kept(ps, pu, sold);
    let swapped = tokens_swapped(ps, pu, sold);
    let n = ps * pu * u;
    let after = after_sell(p, selected, t, root).tokens;
    lemma_sale_bounded(ps, pu, t, root);
    lemma_product_of_two(after);
    let rest = (pu - swapped) as nat;
    assert(product(after) == d * rest) by {
        if selected != 0 {
            assert(after[0] * after[1] == after[1] * after[0]) by (nonlinear_arith);
        }
    }
    lemma_floor_within(n, d);
    lemma_kept_bounded(ps, pu, sold);
    let left = (pu * u - kept) as nat;
    lemma_floor_within(left, u);
    assert(rest * u == pu * u - swapped * u) by (nonlinear_arith)
        requires
            rest == pu - swapped,
    ;
    assert(kept <= rest * u < kept + u);
    assert(d * rest * u + d > n) by (nonlinear_arith)
        requires
            kept <= rest * u,
            n < kept * d + d,
            d > 0,
    ;
    assert(d * rest < ps * pu + d) by (nonlinear_arith)
        requires
            rest * u < kept + u,
            kept * d <= n,
            n == ps * pu * u,
            d > 0,
            u > 0,
    ;
}

/// A larger purchase is no cheaper by the token than a smaller one from the
/// same pool, up to rounding: with one token more, the smaller purchase gets
/// more tokens for each unit of collateral than the larger. Neither purchase
/// has a part that goes in as liquidity.
pub proof fn law_larger_buy_no_cheaper(p: PoolView, selected: int, small: nat, large: nat)
    requires
        0 <= selected < p.tokens.len(),
        0 < small <= large,
        max_of(p.tokens) > 0,
    ensures
        small * tokens_bought(p, selected, large, 0) < large * (tokens_bought(p, selected, small, 0)
            + 1),
{
    let ps = p.tokens[selected];
    let w = max_of(p.tokens);
    assert forall|i: int| 0 <= i < p.tokens.len() implies 0 * #[trigger] p.tokens[i] / w == 0 by {
        assert(0 * p.tokens[i] == 0) by (nonlinear_arith);
    }
    assert(with_liquidity(p, 0).tokens =~= p.tokens);
    assert(grown(p.tokens, selected, 0) =~= p.tokens.update(selected, 1));
    assert(grown(p.tokens, selected, small) =~= others_for(p, selected, small));
    assert(grown(p.tokens, selected, large) =~= others_for(p, selected, large));
    lemma_product_split(p.tokens, selected);
    lemma_growth(p.tokens, selected, small, large);
    lemma_grown_positive(p.tokens, selected, small);
    let a = product(grown(p.tokens, selected, 0)) as int;
    let o1 = product(grown(p.tokens, selected, small)) as int;
    let o2 = product(grown(p.tokens, selected, large)) as int;
    let n = ps * a;
    assert(product(p.tokens) == n);
    let x1 = n / o1;
    let x2 = n / o2;
    assert(solved_balance(p, selected, small, 0) == x1);
    assert(solved_balance(p, selected, large, 0) == x2);
    lemma_floor_within(n as nat, o1 as nat);
    lemma_floor_within(n as nat, o2 as nat);
    assert(x1 <= ps && x2 <= ps) by (nonlinear_arith)
        requires
            x1 * o1 <= ps * a,
            x2 * o2 <= ps * a,
            0 <= a <= o1,
            a <= o2,
            0 < o1,
            0 < o2,
    ;
    let v = ps - x1;
    let z = ps - x2;
    assert(tokens_bought(p, selected, small, 0) == small + v);
    assert(tokens_bought(p, selected, large, 0) == large + z);
    assert(v * o1 >= ps * (o1 - a)) by (nonlinear_arith)
        requires
            v == ps - x1,
            x1 * o1 <= ps * a,
    ;
    assert((z - 1) * o2 < ps * (o2 - a)) by (nonlinear_arith)
        requires
            z == ps - x2,
            ps * a < x2 * o2 + o2,
    ;
    assert(small * (z - 1) < large * v) by {
        if z >= 1 {
            lemma_chain(small as int, large as int, z - 1, v, o1, o2, a, ps as int);
        } else {
            assert(small * (z - 1) < 0) by (nonlinear_arith)
                requires
                    z - 1 < 0,
                    small > 0,
            ;
            assert(large * v >= 0) by (nonlinear_arith)
                requires
                    v >= 0,
                    large >= 0,
            ;
        }
    }
    assert(small * (large + z) < large * (small + v + 1)) by (nonlinear_arith)
        requires
            small * (z - 1) < large * v,
            0 < small <= large,
    ;
}

/// The balances that the product of the other outcomes is taken over, for a
/// purchase of `funds`: every balance with `funds` more, and 1 in place of
/// the selected one.
spec fn grown(tokens: Seq<nat>, selected: int, funds: nat) -> Seq<nat> {
    Seq::new(
        tokens.len(),
        |j: int|
            if j == selected {
                1nat
            } else {
                tokens[j] + funds
            },
    )
}

/// With funds the balances of the others are all positive, and so is their product.
proof fn lemma_grown_positive(tokens: Seq<nat>, selected: int, funds: nat)
    requires
        funds > 0,
    ensures
        product(grown(tokens, selected, funds)) > 0,
    decreases tokens.len(),
{
    let g = grown(tokens, selected, funds);
    if tokens.len() > 0 {
        lemma_grown_positive(tokens.drop_last(), selected, funds);
        assert(g.drop_last() =~= grown(tokens.drop_last(), selected, funds));
        let x = product(g.drop_last());
        let y = g.last();
        assert(x * y > 0) by (nonlinear_arith)
            requires
                x > 0,
                y > 0,
        ;
    }
}

/// The share of the others' product that a purchase adds grows more slowly
/// than the purchase: for the products `a`, `o1` and `o2` of the others'
/// balances before, after the smaller and after the larger purchase,
/// `f1 (o2 - a) o1 <= f2 (o1 - a) o2`, and `a <= o1 <= o2`.
proof fn lemma_growth(tokens: Seq<nat>, selected: int, f1: nat, f2: nat)
    requires
        f1 <= f2,
    ensures
        ({
            let a = product(grown(tokens, selected, 0)) as int;
            let o1 = product(grown(tokens, selected, f1)) as int;
            let o2 = product(grown(tokens, selected, f2)) as int;
            &&& a <= o1 <= o2
            &&& f1 * (o2 - a) * o1 <= f2 * (o1 - a) * o2
        }),
    decreases tokens.len(),
{
    let g0 = grown(tokens, selected, 0);
    let g1 = grown(tokens, selected, f1);
    let g2 = grown(tokens, selected, f2);
    if tokens.len() == 0 {
        assert(f1 * (1 - 1) * 1 <= f2 * (1 - 1) * 1) by (nonlinear_arith);
    } else {
        let front = tokens.drop_last();
        lemma_growth(front, selected, f1, f2);
        assert(g0.drop_last() =~= grown(front, selected, 0));
        assert(g1.drop_last() =~= grown(front, selected, f1));
        assert(g2.drop_last() =~= grown(front, selected, f2));
        let a = product(g0.drop_last()) as int;
        let o1 = product(g1.drop_last()) as int;
        let o2 = product(g2.drop_last()) as int;
        let c0 = g0.last() as int;
        if tokens.len() - 1 == selected {
            assert(a * 1 == a && o1 * 1 == o1 && o2 * 1 == o2) by (nonlinear_arith);
        } else {
            lemma_growth_step(a, o1, o2, c0, f1 as int, f2 as int);
        }
    }
}

/// One more outcome keeps `f1 (o2 - a) o1 <= f2 (o1 - a) o2`.
proof fn lemma_growth_step(a: int, o1: int, o2: int, c: int, f1: int, f2: int)
    requires
        0 <= a <= o1 <= o2,
        0 <= c,
        0 <= f1 <= f2,
        f1 * (o2 - a) * o1 <= f2 * (o1 - a) * o2,
    ensures
        a * c <= o1 * (c + f1) <= o2 * (c + f2),
        f1 * (o2 * (c + f2) - a * c) * (o1 * (c + f1)) <= f2 * (o1 * (c + f1) - a * c) * (o2 * (c
            + f2)),
{
    let d1 = c + f1;
    let d2 = c + f2;
    assert(a * c <= o1 * d1 <= o2 * d2) by (nonlinear_arith)
        requires
            0 <= a <= o1 <= o2,
            0 <= c <= d1 <= d2,
    ;
    let lhs = f1 * (o2 - a) * o1;
    let rhs = f2 * (o1 - a) * o2;
    assert(lhs * (d1 * d2) <= rhs * (d1 * d2)) by (nonlinear_arith)
        requires
            lhs <= rhs,
            d1 >= 0,
            d2 >= 0,
    ;
    assert((f1 * f2 * a) * (o1 * d1) <= (f1 * f2 * a) * (o2 * d2)) by (nonlinear_arith)
        requires
            o1 * d1 <= o2 * d2,
            f1 >= 0,
            f2 >= 0,
            a >= 0,
    ;
    lemma_growth_split(f1, o2, a, c, f2, o1, d1);
    lemma_growth_split(f2, o1, a, c, f1, o2, d2);
    assert((f2 * f1 * a) * (o2 * d2) == (f1 * f2 * a) * (o2 * d2)) by (nonlinear_arith);
    assert(d2 * d1 == d1 * d2) by (nonlinear_arith);
}

/// `f (o (c + g) - a c) e == (f (o - a) e) (c + g) + (f g a) e`.
proof fn lemma_growth_split(f: int, o: int, a: int, c: int, g: int, x: int, d: int)
    ensures
        f * (o * (c + g) - a * c) * (x * d) == (f * (o - a) * x) * (d * (c + g)) + (f * g * a) * (x
            * d),
{
    let m = o - a;
    let h = c + g;
    let e = x * d;
    assert(o * h - a * c == m * h + a * g) by (nonlinear_arith)
        requires
            m == o - a,
            h == c + g,
    ;
    let y = m * h;
    let w = a * g;
    assert(f * (y + w) * e == f * y * e + f * w * e) by (nonlinear_arith);
    assert(f * y == (f * m) * h) by (nonlinear_arith)
        requires
            y == m * h,
    ;
    let fm = f * m;
    assert((fm * h) * (x * d) == (fm * x) * (d * h)) by (nonlinear_arith);
    assert(f * w == f * g * a) by (nonlinear_arith)
        requires
            w == a * g,
    ;
}

/// If `u o2 < k (o2 - a)` and `v o1 >= k (o1 - a)`, and the purchases compare
/// as `f1 (o2 - a) o1 <= f2 (o1 - a) o2`, then `f1 u < f2 v`.
proof fn lemma_chain(f1: int, f2: int, u: int, v: int, o1: int, o2: int, a: int, k: int)
    requires
        0 < f1 <= f2,
        0 < o1,
        0 < o2,
        0 <= u,
        0 <= v,
        0 <= k,
        u * o2 < k * (o2 - a),
        v * o1 >= k * (o1 - a),
        f1 * (o2 - a) * o1 <= f2 * (o1 - a) * o2,
    ensures
        f1 * u < f2 * v,
{
    let g2 = f1 * (o2 - a) * o1;
    let g1 = f2 * (o1 - a) * o2;
    assert((f1 * u) * (o1 * o2) < k * g2) by (nonlinear_arith)
        requires
            u * o2 < k * (o2 - a),
            f1 > 0,
            o1 > 0,
            g2 == f1 * (o2 - a) * o1,
    ;
    assert(k * g2 <= k * g1) by (nonlinear_arith)
        requires
            g2 <= g1,
            k >= 0,
    ;
    assert(k * g1 <= (f2 * v) * (o1 * o2)) by (nonlinear_arith)
        requires
            v * o1 >= k * (o1 - a),
            f2 > 0,
            o2 > 0,
            g1 == f2 * (o1 - a) * o2,
    ;
    assert(f1 * u < f2 * v) by (nonlinear_arith)
        requires
            (f1 * u) * (o1 * o2) < (f2 * v) * (o1 * o2),
            o1 > 0,
            o2 > 0,
    ;
}

/// A round trip keeps the product of the pool's two balances, up to rounding.
///
/// When `funds` buy tokens of an outcome, none of them as liquidity, and the
/// tokens are sold back at once, the product is afterwards less than one
/// token of the other outcome above what it was before the purchase, and
/// less than one token of either outcome below.
pub proof fn law_round_trip_keeps_product(
    p: PoolView,
    selected: int,
    funds: nat,
    ratio: Decimal,
    root: nat,
)
    requires
        p.tokens.len() == 2,
        0 <= selected < 2,
        ratio@ == 0,
        buy_error(p, selected, funds, ratio) is None,
        sell_error(
            after_buy(p, selected, funds, 0),
            selected,
            tokens_bought(p, selected, funds, 0),
            root,
        ) is None,
    ensures
        ({
            let mid = after_buy(p, selected, funds, 0);
            let t = tokens_bought(p, selected, funds, 0);
            let grown = mid.tokens[selected] + tokens_sold(
                mid.tokens[selected],
                mid.tokens[1 - selected],
                t,
                root,
            );
            let end = product(after_sell(mid, selected, t, root).tokens);
            &&& end < product(p.tokens) + grown
            &&& end * unit() + grown + mid.tokens[1 - selected] * unit() > product(p.tokens)
                * unit()
        }),
{
    let mid = after_buy(p, selected, funds, 0);
    let t = tokens_bought(p, selected, funds, 0);
    let w = max_of(p.tokens);
    assert(funds * 0 == 0) by (nonlinear_arith);
    assert(scaled_floor(funds, ratio@) == 0);
    assert forall|i: int| 0 <= i < 2 implies 0 * #[trigger] p.tokens[i] / w == 0 by {
        assert(0 * p.tokens[i] == 0) by (nonlinear_arith);
    }
    assert(with_liquidity(p, 0).tokens =~= p.tokens);
    law_buy_keeps_product(p, selected, funds, ratio);
    law_sale_keeps_product(mid, selected, t, root);
    lemma_others_of_two(p, selected, funds);
    lemma_product_of_two(mid.tokens);
    let ms = mid.tokens[selected];
    let mu = mid.tokens[1 - selected];
    assert(product(mid.tokens) == ms * mu) by {
        assert(mid.tokens[0] * mid.tokens[1] == mid.tokens[1] * mid.tokens[0])
            by (nonlinear_arith);
    }
    let before = product(p.tokens);
    let between = product(mid.tokens);
    let u = unit();
    assert(between * u + mu * u > before * u) by (nonlinear_arith)
        requires
            before < between + mu,
            u > 0,
    ;
}

/// The product of the others, of two outcomes, is the one other balance.
proof fn lemma_others_of_two(p: PoolView, selected: int, funds: nat)
    requires
        p.tokens.len() == 2,
        0 <= selected < 2,
    ensures
        product(others_for(p, selected, funds)) == p.tokens[1 - selected] + funds,
{
    let o = others_for(p, selected, funds);
    lemma_product_of_two(o);
    let x = (p.tokens[1 - selected] + funds) as nat;
    assert(1 * x == x && x * 1 == x) by (nonlinear_arith);
}

/// A wallet's entitlement to tokens of `outcome`, for a position with a
/// balance for the outcome.
pub open spec fn entitled(pool: PoolView, outcome: OutcomeId) -> spec_fn(PositionView) -> nat {
    |p: PositionView|
        if outcome.0 < p.tokens.len() {
            entitlement(p, pool, outcome)
        } else {
            0
        }
}

/// The winnings are covered: whichever outcome wins, the tokens of it that
/// all wallets together are entitled to are no more than the collateral.
pub proof fn law_winnings_are_covered(l: LedgerView, now: Timestamp, outcome: OutcomeId)
    requires
        l.sane(now),
        outcome.0 < l.outcome_count(),
    ensures
        total(l.holders, entitled(l.pool, outcome)) <= l.pool.size,
{
    let o = outcome.0 as int;
    let shares = l.pool.shares;
    let pool = l.pool.tokens[o];
    lemma_position_shaped(l, now, l.house);
    lemma_find(l.holders, l.house);
    lemma_shares_positive(l.holders, find_house(l));
    lemma_entitled_sum(l.holders, l.pool, outcome);
    let all = total(l.holders, entitled(l.pool, outcome));
    let own = total(l.holders, held(o));
    assert(l.pool.tokens[o] + total(l.holders, held(o)) == l.pool.size);
    assert(all <= own + pool) by (nonlinear_arith)
        requires
            all * shares <= own * shares + pool * shares,
            shares > 0,
    ;
}

/// The index of the house's position.
spec fn find_house(l: LedgerView) -> int {
    find(l.holders, l.house)->0
}

/// The shares of all wallets are at least those of any one.
proof fn lemma_shares_positive(es: Seq<Entry>, k: int)
    requires
        0 <= k < es.len(),
    ensures
        total(es, shares_held()) >= es[k].position.shares,
    decreases es.len(),
{
    if k < es.len() - 1 {
        lemma_shares_positive(es.drop_last(), k);
    }
}

/// What the wallets are entitled to of the pool's tokens is no more than
/// their part of the shares: in units of shares, the entitlements add up to
/// at most the wallets' own tokens, and the pool's for their shares.
proof fn lemma_entitled_sum(es: Seq<Entry>, pool: PoolView, outcome: OutcomeId)
    requires
        outcome.0 < pool.tokens.len(),
        pool.shares > 0,
    ensures
        total(es, entitled(pool, outcome)) * pool.shares <= total(es, held(outcome.0 as int))
            * pool.shares + pool.tokens[outcome.0 as int] * total(es, shares_held()),
    decreases es.len(),
{
    if es.len() > 0 {
        lemma_entitled_sum(es.drop_last(), pool, outcome);
        let p = es.last().position;
        let o = outcome.0 as int;
        let l = pool.shares;
        let t = pool.tokens[o];
        let a = total(es.drop_last(), entitled(pool, outcome));
        let b = total(es.drop_last(), held(o));
        let c = total(es.drop_last(), shares_held());
        let e = entitled(pool, outcome)(p);
        let h = held(o)(p);
        if outcome.0 < p.tokens.len() {
            lemma_pool_entitlement(t, p.shares, l);
            let x = pool_entitlement(t, p.shares, l);
            assert(e == h + x);
            assert((a + e) * l <= (b + h) * l + t * (c + p.shares)) by (nonlinear_arith)
                requires
                    a * l <= b * l + t * c,
                    e == h + x,
                    x * l <= t * p.shares,
            ;
        } else {
            assert((a + e) * l <= (b + h) * l + t * (c + p.shares)) by (nonlinear_arith)
                requires
                    a * l <= b * l + t * c,
                    e == 0,
                    h == 0,
            ;
        }
    }
}

/// A wallet's share of a pool balance is at most its part of the shares.
proof fn lemma_pool_entitlement(pool: nat, shares: nat, all: nat)
    requires
        all > 0,
    ensures
        pool_entitlement(pool, shares, all) * all <= pool * shares,
{
    let u = unit();
    let r = shares * u / all;
    let x = pool * r / u;
    lemma_floor_within(shares * u, all);
    lemma_floor_within(pool * r, u);
    assert(x * all <= pool * shares) by (nonlinear_arith)
        requires
            r * all <= shares * u,
            x * u <= pool * r,
            u > 0,
    ;
}

} // verus!
