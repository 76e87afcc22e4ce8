//! Sequences of amounts: their largest element, their product, and the
//! arithmetic facts that the market maker's proofs rest on.

use crate::types::Token;
use crate::wide::fits;
use vstd::prelude::*;

verus! {

/// The amounts that a list of token balances holds.
pub open spec fn amounts(v: Seq<Token>) -> Seq<nat> {
    Seq::new(v.len(), |i: int| v[i]@)
}

/// The largest element of `s`, and 0 for the empty sequence.
pub open spec fn max_of(s: Seq<nat>) -> nat
    decreases s.len(),
{
    if s.len() == 0 {
        0
    } else {
        let m = max_of(s.drop_last());
        if s.last() > m {
            s.last()
        } else {
            m
        }
    }
}

/// The product of the elements of `s`, and 1 for the empty sequence.
pub open spec fn product(s: Seq<nat>) -> nat
    decreases s.len(),
{
    if s.len() == 0 {
        1
    } else {
        product(s.drop_last()) * s.last()
    }
}

/// Whether the product of every prefix of `s` can be held in 256 bits: what
/// it takes to multiply the elements up from the left.
pub open spec fn products_fit(s: Seq<nat>) -> bool
    decreases s.len(),
{
    if s.len() == 0 {
        true
    } else {
        products_fit(s.drop_last()) && fits(product(s))
    }
}

/// The sum of the elements of `s`.
pub open spec fn sum_of(s: Seq<nat>) -> nat
    decreases s.len(),
{
    if s.len() == 0 {
        0
    } else {
        sum_of(s.drop_last()) + s.last()
    }
}

/// The sum of a prefix and each element are at most the sum of the whole.
pub proof fn lemma_sum_of_bounds(s: Seq<nat>, k: int)
    requires
        0 <= k <= s.len(),
    ensures
        sum_of(s.take(k)) <= sum_of(s),
        k < s.len() ==> s[k] <= sum_of(s),
        k < s.len() ==> sum_of(s.take(k + 1)) == sum_of(s.take(k)) + s[k],
    decreases s.len(),
{
    if k == s.len() {
        assert(s.take(k) == s);
    } else {
        assert(s.take(k + 1).drop_last() == s.take(k));
        if k < s.len() - 1 {
            lemma_sum_of_bounds(s.drop_last(), k);
            assert(s.drop_last().take(k) == s.take(k));
        } else {
            assert(s.take(k) == s.drop_last());
        }
    }
}

/// No element of a sequence is above its largest.
pub proof fn lemma_max_of_bounds(s: Seq<nat>, i: int)
    requires
        0 <= i < s.len(),
    ensures
        s[i] <= max_of(s),
    decreases s.len(),
{
    if i < s.len() - 1 {
        lemma_max_of_bounds(s.drop_last(), i);
    }
}

/// The largest element of a non-empty sequence is one of its elements.
pub proof fn lemma_max_of_attained(s: Seq<nat>) -> (i: int)
    requires
        s.len() > 0,
    ensures
        0 <= i < s.len(),
        s[i] == max_of(s),
    decreases s.len(),
{
    if s.len() == 1 {
        assert(max_of(s.drop_last()) == 0);
        0
    } else if s.last() > max_of(s.drop_last()) {
        s.len() - 1
    } else {
        lemma_max_of_attained(s.drop_last())
    }
}

/// A share `a * t / w` of `a` with `t <= w` is at most `a`.
pub proof fn lemma_share_bounded(a: nat, t: nat, w: nat)
    requires
        t <= w,
        w > 0,
    ensures
        a * t / w <= a,
{
    assert(a * t <= a * w) by (nonlinear_arith)
        requires
            t <= w,
    ;
    vstd::arithmetic::div_mod::lemma_div_is_ordered((a * t) as int, (a * w) as int, w as int);
    vstd::arithmetic::div_mod::lemma_div_multiples_vanish(a as int, w as int);
    assert(a * w == w * a) by (nonlinear_arith);
}

/// Multiplying up a prefix needs no more room than multiplying up the whole.
pub proof fn lemma_products_fit_prefix(s: Seq<nat>, k: int)
    requires
        products_fit(s),
        0 <= k <= s.len(),
    ensures
        products_fit(s.take(k)),
        fits(product(s.take(k))),
    decreases s.len(),
{
    if k == s.len() {
        assert(s.take(k) == s);
        if s.len() == 0 {
            assert(product(s) == 1);
        }
    } else {
        lemma_products_fit_prefix(s.drop_last(), k);
        assert(s.drop_last().take(k) == s.take(k));
    }
}

/// The product of the first `k + 1` elements is that of the first `k`, times the next.
pub proof fn lemma_product_step(s: Seq<nat>, k: int)
    requires
        0 <= k < s.len(),
    ensures
        product(s.take(k + 1)) == product(s.take(k)) * s[k],
        products_fit(s.take(k + 1)) == (products_fit(s.take(k)) && fits(product(s.take(k + 1)))),
{
    assert(s.take(k + 1).drop_last() == s.take(k));
    assert(s.take(k + 1).last() == s[k]);
}

/// A product is one factor times the product of the others.
pub proof fn lemma_product_split(s: Seq<nat>, i: int)
    requires
        0 <= i < s.len(),
    ensures
        product(s) == s[i] * product(s.update(i, 1)),
    decreases s.len(),
{
    let t = s.update(i, 1);
    if i == s.len() - 1 {
        assert(t.drop_last() == s.drop_last());
        assert(product(t) == product(s.drop_last()) * 1);
        assert(product(s.drop_last()) * 1 == product(s.drop_last())) by (nonlinear_arith);
        assert(product(s.drop_last()) * s[i] == s[i] * product(s.drop_last())) by (nonlinear_arith);
    } else {
        lemma_product_split(s.drop_last(), i);
        assert(t.drop_last() == s.drop_last().update(i, 1));
        let a = product(s.drop_last().update(i, 1));
        let x = s[i];
        let l = s.last();
        assert(product(s) == (x * a) * l);
        assert(product(t) == a * l);
        assert((x * a) * l == x * (a * l)) by (nonlinear_arith);
    }
}

/// A product grows with its factors.
pub proof fn lemma_product_monotone(a: Seq<nat>, b: Seq<nat>)
    requires
        a.len() == b.len(),
        forall|i: int| 0 <= i < a.len() ==> a[i] <= b[i],
    ensures
        product(a) <= product(b),
    decreases a.len(),
{
    if a.len() > 0 {
        lemma_product_monotone(a.drop_last(), b.drop_last());
        let x = product(a.drop_last());
        let y = product(b.drop_last());
        let u = a.last();
        let v = b.last();
        assert(x * u <= y * v) by (nonlinear_arith)
            requires
                x <= y,
                u <= v,
        ;
    }
}

} // verus!
