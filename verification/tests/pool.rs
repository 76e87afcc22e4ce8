use predict::cpmm::Pool;
use predict::decimal::Decimal;
use predict::error::Error;
use predict::swap::Quadratic;
use predict::state::{ShareInfo, StoredMarket, StoredOutcome};
use predict::types::{MarketId, OutcomeId, Timestamp};
use predict::types::{Collateral, LpShare, Token};
use predict::wide::U256;

fn num(x: U256) -> u128 {
    cosmwasm_std::Uint128::try_from(cosmwasm_std::Uint256::from_be_bytes(x.bytes))
        .unwrap()
        .u128()
}

fn u(x: u128) -> U256 {
    U256 {
        bytes: cosmwasm_std::Uint256::from_u128(x).to_be_bytes(),
    }
}

fn pool(tokens: &[u128], size: u128, shares: u128) -> Pool {
    Pool {
        tokens: tokens.iter().map(|t| Token(u(*t))).collect(),
        size: Collateral(u(size)),
        shares: LpShare(u(shares)),
    }
}

fn balances(pool: &Pool) -> Vec<u128> {
    pool.tokens.iter().map(|t| num(t.0)).collect()
}

fn amounts(tokens: &[Token]) -> Vec<u128> {
    tokens.iter().map(|t| num(t.0)).collect()
}

fn product(pool: &Pool) -> u128 {
    balances(pool).iter().product()
}

fn dec(input: &str) -> Decimal {
    let parsed: cosmwasm_std::Decimal256 = input.parse().unwrap();
    Decimal::new(U256 { bytes: parsed.atomics().to_be_bytes() })
}

fn max_u256() -> U256 {
    U256 { bytes: [255u8; 32] }
}

#[test]
fn liquidity_is_split_by_the_largest_balance() {
    let before = pool(&[100, 900], 1000, 900_000_000);
    assert_eq!(num(before.weight().0), 900);
    let (after, minted) = before.add_liquidity(Collateral(u(1000))).unwrap();
    assert_eq!(balances(&after), vec![211, 1900]);
    assert_eq!(num(after.size.0), 2000);
    assert_eq!(num(after.shares.0), 1_900_000_000);
    assert_eq!(num(minted.lp.0), 1_000_000_000);
    assert_eq!(amounts(&minted.added_to_pool), vec![111, 1000]);
    assert_eq!(amounts(&minted.returned_to_user), vec![889, 0]);
    // The price of the outcomes is not changed: 100/900 against 211/1900
    assert_eq!(100 * 1900 / 900, 211);
}

#[test]
fn liquidity_needs_a_pool_to_weigh_against() {
    let empty = pool(&[], 0, 0);
    assert!(matches!(
        empty.add_liquidity(Collateral(u(10))),
        Err(Error::DivideByZero)
    ));
    let drained = pool(&[0, 0], 10, 5);
    assert!(matches!(
        drained.add_liquidity(Collateral(u(10))),
        Err(Error::DivideByZero)
    ));
    let full = Pool {
        tokens: vec![Token(u(1)), Token(u(2))],
        size: Collateral(max_u256()),
        shares: LpShare(u(0)),
    };
    assert!(matches!(
        full.add_liquidity(Collateral(u(1))),
        Err(Error::Overflow)
    ));
}

#[test]
fn a_purchase_keeps_the_product_of_the_balances() {
    let before = pool(&[101, 910], 1010, 910_000_000);
    let (after, bought) = before.buy(0, Collateral(u(990)), Decimal::zero()).unwrap();
    assert_eq!(balances(&after), vec![48, 1900]);
    assert_eq!(num(after.size.0), 2000);
    assert_eq!(num(bought.tokens.0), 1043);
    assert_eq!(num(bought.lp.0), 0);
    // Within one token of the outcome bought
    assert!(product(&after) <= product(&before));
    assert!(product(&before) < product(&after) + 1900);
}

#[test]
fn a_purchase_with_liquidity_grows_the_product_by_the_liquidity() {
    let before = pool(&[1161329, 1518053], 10_000_000, 1_000_000);
    let funds = Collateral(u(990_000));
    let (after, bought) = before.buy(1, funds, dec("0.1")).unwrap();
    assert_eq!(balances(&after), vec![2151329, 929843]);
    assert_eq!(num(after.size.0), 10_990_000);
    assert_eq!(num(bought.tokens.0), 1578210);
    // 99000 * 1000000 / 1518053
    assert_eq!(num(bought.lp.0), 65215);
    assert_eq!(num(after.shares.0), 1_065_215);

    let (grown, _) = before.add_liquidity(Collateral(u(99_000))).unwrap();
    assert_eq!(balances(&grown), vec![1237065, 1617053]);
    assert!(product(&after) <= product(&grown));
    assert!(product(&grown) < product(&after) + 2151329);
}

#[test]
fn a_purchase_with_no_funds_changes_nothing() {
    let before = pool(&[101, 910], 1010, 910_000_000);
    let (after, bought) = before.buy(1, Collateral(u(0)), dec("0.5")).unwrap();
    assert_eq!(balances(&after), vec![101, 910]);
    assert_eq!(num(after.size.0), 1010);
    assert_eq!(num(after.shares.0), 910_000_000);
    assert!(bought.tokens.is_zero());
    assert!(bought.lp.is_zero());
}

#[test]
fn a_larger_purchase_is_no_cheaper_by_the_token() {
    let before = pool(&[101, 910], 1010, 0);
    let mut last: Option<(u128, u128)> = None;
    for funds in [1u128, 2, 3, 10, 100, 990, 5_000, 1_000_000] {
        let (_, bought) = before.buy(0, Collateral(u(funds)), Decimal::zero()).unwrap();
        let tokens = num(bought.tokens.0);
        if let Some((small, small_tokens)) = last {
            assert!(small * tokens < funds * (small_tokens + 1));
        }
        last = Some((funds, tokens));
    }
    // Rounding alone can make a larger purchase cheaper, by less than a token.
    let tiny = pool(&[2, 2], 4, 0);
    let (_, two) = tiny.buy(0, Collateral(u(2)), Decimal::zero()).unwrap();
    let (_, three) = tiny.buy(0, Collateral(u(3)), Decimal::zero()).unwrap();
    assert_eq!(num(two.tokens.0), 3);
    assert_eq!(num(three.tokens.0), 5);
}

#[test]
fn a_larger_purchase_is_no_cheaper_among_three_outcomes() {
    let before = pool(&[300, 200, 100], 600, 0);
    // 200 * 100 is the product of the others before, (200 + f) (100 + f) after
    let (after, bought) = before.buy(0, Collateral(u(100)), Decimal::zero()).unwrap();
    assert_eq!(balances(&after), vec![100, 300, 200]);
    assert_eq!(num(bought.tokens.0), 300);
    let mut last: Option<(u128, u128)> = None;
    for funds in [1u128, 7, 100, 101, 4_000] {
        let (_, bought) = before.buy(0, Collateral(u(funds)), Decimal::zero()).unwrap();
        let tokens = num(bought.tokens.0);
        if let Some((small, small_tokens)) = last {
            assert!(small * tokens < funds * (small_tokens + 1));
        }
        last = Some((funds, tokens));
    }
}

#[test]
fn purchases_are_refused_with_their_reasons() {
    let before = pool(&[101, 910], 1010, 910_000_000);
    assert!(matches!(
        before.buy(0, Collateral(u(990)), dec("1")),
        Err(Error::InvalidLiquidityRatio { .. })
    ));
    assert!(matches!(
        before.buy(0, Collateral(u(990)), dec("1.5")),
        Err(Error::InvalidLiquidityRatio { .. })
    ));
    assert!(matches!(
        before.buy(0, Collateral(max_u256()), dec("0.5")),
        Err(Error::Overflow)
    ));
    // Nothing to divide by: no funds, and the other outcome has no tokens in the pool
    let one_sided = pool(&[5, 0], 5, 0);
    assert!(matches!(
        one_sided.buy(0, Collateral(u(0)), Decimal::zero()),
        Err(Error::DivideByZero)
    ));
    let big = 1u128 << 127;
    let wide = Pool {
        tokens: vec![Token(u(big)), Token(u(big)), Token(u(big))],
        size: Collateral(u(big)),
        shares: LpShare(u(0)),
    };
    assert!(matches!(
        wide.buy(0, Collateral(u(1)), Decimal::zero()),
        Err(Error::Overflow)
    ));
}

#[test]
fn a_sale_redeems_full_sets() {
    let before = pool(&[48, 1900], 2000, 910_000_000);
    let (after, sold) = before.sell(0, Token(u(1043))).unwrap();
    assert_eq!(balances(&after), vec![100, 912]);
    assert_eq!(num(after.size.0), 1012);
    assert_eq!(num(after.shares.0), 910_000_000);
    assert_eq!(num(sold.funds.0), 988);
    assert_eq!(amounts(&sold.returned), vec![3, 0]);
    // The product is kept within one token of the other outcome
    assert_eq!(product(&before), 91200);
    assert_eq!(product(&after), 91200);

    // The other way round
    let before = pool(&[1900, 48], 2000, 0);
    let (after, sold) = before.sell(1, Token(u(1043))).unwrap();
    assert_eq!(balances(&after), vec![912, 100]);
    assert_eq!(num(sold.funds.0), 988);
    assert_eq!(amounts(&sold.returned), vec![0, 3]);
}

#[test]
fn a_sale_follows_the_root_it_is_given() {
    let before = pool(&[48, 1900], 2000, 0);
    // The discriminant of the sale of 1043 tokens is 1019281
    let q = Quadratic::new(Token(u(48)), Token(u(1900)), Token(u(1043))).unwrap();
    assert_eq!(q.discriminant, dec("1019281"));
    assert_eq!(q.negb, dec("2991"));
    assert_eq!(q.product, dec("91200"));

    // The root is that of the decimal, and not the discriminant itself
    let root: cosmwasm_std::Decimal256 = "1019281".parse().unwrap();
    let root = Decimal::new(U256 { bytes: root.sqrt().atomics().to_be_bytes() });
    assert_eq!(root, dec("1009.594473043508692523"));
    let (by_root, _) = before.sell_with_root(0, Token(u(1043)), root).unwrap();
    let (by_sale, _) = before.sell(0, Token(u(1043))).unwrap();
    assert_eq!(balances(&by_sale), balances(&by_root));
    assert!(before
        .sell_with_root(0, Token(u(1043)), q.discriminant)
        .is_err());

    // With its root rounded down to 1009, 1043 - (2991 - 1009) / 2 = 52 tokens are sold
    let (after, sold) = before
        .sell_with_root(0, Token(u(1043)), dec("1009"))
        .unwrap();
    assert_eq!(balances(&after), vec![100, 912]);
    assert_eq!(num(sold.funds.0), 988);

    // With a root of 2991 nothing is kept back: all tokens are sold
    let (after, sold) = before
        .sell_with_root(0, Token(u(1043)), dec("2991"))
        .unwrap();
    assert_eq!(balances(&after), vec![1091, 84]);
    assert_eq!(num(sold.funds.0), 0);
    assert_eq!(amounts(&sold.returned), vec![0, 1816]);

    // A root above the sum cannot be
    assert!(matches!(
        before.sell_with_root(0, Token(u(1043)), dec("2992")),
        Err(Error::Underflow)
    ));
    // With a root of 0 more would be kept back than there is
    assert!(matches!(
        before.sell_with_root(0, Token(u(1043)), dec("0")),
        Err(Error::Underflow)
    ));
}

#[test]
fn sales_are_refused_with_their_reasons() {
    let three = pool(&[1, 2, 3], 6, 0);
    assert!(matches!(
        three.sell(0, Token(u(1))),
        Err(Error::UnsupportedOutcomeCount { total_outcomes: 3 })
    ));
    let one = pool(&[1], 1, 0);
    assert!(matches!(
        one.sell(0, Token(u(1))),
        Err(Error::UnsupportedOutcomeCount { total_outcomes: 1 })
    ));
    let wide = Pool {
        tokens: vec![Token(max_u256()), Token(u(1))],
        size: Collateral(max_u256()),
        shares: LpShare(u(0)),
    };
    assert!(matches!(wide.sell(0, Token(u(1))), Err(Error::Overflow)));
    // No tokens in the pool to sell to
    let drained = pool(&[0, 10], 10, 0);
    assert!(matches!(
        drained.sell(0, Token(u(0))),
        Err(Error::DivideByZero)
    ));
    // More sets than there is collateral
    let short = pool(&[48, 1900], 100, 0);
    assert!(matches!(
        short.sell(0, Token(u(1043))),
        Err(Error::Underflow)
    ));
}

#[test]
fn a_round_trip_keeps_the_product() {
    let start = pool(&[101, 910], 1010, 0);
    let (mid, bought) = start.buy(0, Collateral(u(990)), Decimal::zero()).unwrap();
    let (end, sold) = mid.sell(0, bought.tokens).unwrap();
    assert_eq!(num(sold.funds.0), 988);
    assert!(num(sold.funds.0) <= 990);
    assert_eq!(product(&start), 91910);
    assert_eq!(product(&mid), 91200);
    assert_eq!(product(&end), 91200);
    assert!(product(&end) < product(&start) + 100);
    assert!(product(&end) + 1900 + 1 > product(&start));
}

fn market(tokens: &[u128], size: u128, shares: u128) -> StoredMarket {
    StoredMarket {
        id: MarketId(3),
        title: "Title".to_owned(),
        description: "Description".to_owned(),
        arbitrator: "arbitrator".to_owned(),
        outcomes: tokens
            .iter()
            .enumerate()
            .map(|(i, t)| StoredOutcome {
                id: OutcomeId(i as u8),
                label: format!("{i}"),
                pool_tokens: Token(u(*t)),
                wallets: 0,
            })
            .collect(),
        denom: "satoshi".to_owned(),
        deposit_fee: dec("0.01"),
        withdrawal_fee: dec("0.02"),
        pool_size: Collateral(u(size)),
        deposit_stop_date: Timestamp(2),
        withdrawal_stop_date: Timestamp(1),
        winner: None,
        house: "house".to_owned(),
        total_wallets: 0,
        lp_shares: LpShare(u(shares)),
    }
}

fn pool_tokens(market: &StoredMarket) -> Vec<u128> {
    market.outcomes.iter().map(|o| num(o.pool_tokens.0)).collect()
}

#[test]
fn a_market_takes_over_the_numbers_of_its_pool() {
    let mut stored = market(&[100, 900], 1000, 900_000_000);
    let minted = stored.add_liquidity(Collateral(u(10))).unwrap();
    assert_eq!(pool_tokens(&stored), vec![101, 910]);
    assert_eq!(num(stored.pool_size.0), 1010);
    assert_eq!(num(stored.lp_shares.0), 910_000_000);
    assert_eq!(num(minted.lp.0), 10_000_000);
    assert_eq!(amounts(&minted.returned_to_user), vec![9, 0]);
    assert_eq!(amounts(&minted.added_to_pool), vec![1, 10]);

    let bought = stored
        .buy(OutcomeId(0), Collateral(u(990)), Decimal::zero())
        .unwrap();
    assert_eq!(num(bought.tokens.0), 1043);
    assert_eq!(pool_tokens(&stored), vec![48, 1900]);

    let sold = stored.sell(OutcomeId(0), Token(u(1043))).unwrap();
    assert_eq!(num(sold.funds.0), 988);
    assert_eq!(pool_tokens(&stored), vec![100, 912]);
    assert_eq!(num(stored.pool_size.0), 1012);
    assert_eq!(stored.title, "Title");
    assert_eq!(stored.outcomes[1].label, "1");
}

#[test]
fn a_market_is_left_as_it_was_on_an_error() {
    let mut stored = market(&[100, 900], 1000, 900_000_000);
    let before = format!("{stored:?}");
    assert!(matches!(
        stored.buy(OutcomeId(2), Collateral(u(990)), Decimal::zero()),
        Err(Error::InvalidOutcome { id: MarketId(3), outcome_count: 2, outcome: OutcomeId(2) })
    ));
    assert!(matches!(
        stored.buy(OutcomeId(0), Collateral(u(990)), dec("1")),
        Err(Error::InvalidLiquidityRatio { .. })
    ));
    assert!(matches!(
        stored.sell(OutcomeId(2), Token(u(1))),
        Err(Error::InvalidOutcome { id: MarketId(3), outcome_count: 2, outcome: OutcomeId(2) })
    ));
    assert!(matches!(
        stored.sell(OutcomeId(0), Token(max_u256())),
        Err(Error::Overflow)
    ));
    assert!(matches!(
        stored.add_liquidity(Collateral(max_u256())),
        Err(Error::Overflow)
    ));
    assert!(matches!(
        stored.get_outcome(OutcomeId(2)),
        Err(Error::InvalidOutcome { .. })
    ));
    assert_eq!(stored.get_outcome(OutcomeId(1)).unwrap().label, "1");
    assert_eq!(before, format!("{stored:?}"));

    let mut three = market(&[1, 2, 3], 6, 0);
    assert!(matches!(
        three.sell(OutcomeId(0), Token(u(1))),
        Err(Error::UnsupportedOutcomeCount { total_outcomes: 3 })
    ));
}

#[test]
fn a_wallet_is_entitled_to_its_tokens_and_its_share_of_the_pool() {
    let stored = market(&[48, 1900], 2000, 910_000_000);
    let position = ShareInfo {
        outcomes: vec![Token(u(7)), Token(u(0))],
        shares: LpShare(u(303_333_333)),
        claimed_winnings: false,
    };
    // A third of the shares, rounded down to 0.333333332967032967
    assert_eq!(
        num(position.get_outcome(&stored, OutcomeId(0)).unwrap().0),
        7 + 15
    );
    assert_eq!(
        num(position.get_outcome(&stored, OutcomeId(1)).unwrap().0),
        633
    );
    assert!(matches!(
        position.get_outcome(&stored, OutcomeId(2)),
        Err(Error::InvalidOutcome { id: MarketId(3), outcome_count: 2, outcome: OutcomeId(2) })
    ));
    let no_shares = market(&[48, 1900], 2000, 0);
    assert!(matches!(
        position.get_outcome(&no_shares, OutcomeId(0)),
        Err(Error::DivideByZero)
    ));
    assert!(position.has_tokens());
    assert!(position.is_active());
    let empty = ShareInfo::new(2);
    assert!(!empty.has_tokens());
    assert!(!empty.is_active());
    assert_eq!(empty.outcomes, vec![Token(u(0)), Token(u(0))]);
    let other = position
        .credited(LpShare(u(1)), &vec![Token(u(1)), Token(u(2))])
        .unwrap();
    assert_eq!(amounts(&other.outcomes), vec![8, 2]);
    assert_eq!(num(other.shares.0), 303_333_334);
    assert!(matches!(
        position.credited(LpShare(u(1)), &vec![Token(max_u256()), Token(u(2))]),
        Err(Error::Overflow)
    ));
}
