use predict::api::{AddMarketParams, OutcomeDef, QueryMsg};
use predict::cpmm::AddLiquidity;
use predict::decimal::Decimal;
use predict::error::Error;
use predict::execute::{add_market, initial_outcomes, only_tokens};
use predict::ledger::{Counts, Ledger};
use predict::state::{ShareInfo, StoredMarket};
use predict::sanity::sanity;
use predict::store::{assert_is_admin, instantiate, query, Answer};
use predict::types::{Collateral, LpShare, MarketId, OutcomeId, Timestamp, Token};
use predict::util::Funds;
use predict::wide::U256;

fn u(x: u128) -> U256 {
    U256 {
        bytes: cosmwasm_std::Uint256::from_u128(x).to_be_bytes(),
    }
}

fn num(x: U256) -> u128 {
    cosmwasm_std::Uint128::try_from(cosmwasm_std::Uint256::from_be_bytes(x.bytes))
        .unwrap()
        .u128()
}

fn amounts(tokens: &[Token]) -> Vec<u128> {
    tokens.iter().map(|t| num(t.0)).collect()
}

fn dec(input: &str) -> Decimal {
    let parsed: cosmwasm_std::Decimal256 = input.parse().unwrap();
    Decimal::new(U256 {
        bytes: parsed.atomics().to_be_bytes(),
    })
}

fn coin(amount: u128) -> Funds {
    Funds::Funds {
        denom: "satoshi".to_owned(),
        amount,
    }
}

fn params(outcomes: &[u128]) -> AddMarketParams {
    AddMarketParams {
        title: "Title".to_owned(),
        description: "Description".to_owned(),
        arbitrator: "arbitrator".to_owned(),
        outcomes: outcomes
            .iter()
            .enumerate()
            .map(|(i, amount)| OutcomeDef {
                label: format!("{i}"),
                initial_amount: Token(u(*amount)),
            })
            .collect(),
        denom: "satoshi".to_owned(),
        deposit_fee: dec("0.01"),
        withdrawal_fee: dec("0.02"),
        withdrawal_stop_date: Timestamp(100),
        deposit_stop_date: Timestamp(200),
        house: "house".to_owned(),
    }
}

fn ledger() -> Ledger {
    add_market(MarketId(1), Timestamp(0), params(&[100, 900]), coin(1000)).unwrap()
}

#[test]
fn a_market_opens_with_the_house_as_its_one_wallet() {
    let ledger = ledger();
    assert!(ledger.sanity(Timestamp(0)));
    assert_eq!(ledger.market.id, MarketId(1));
    assert_eq!(ledger.market.title, "Title");
    assert_eq!(ledger.market.winner, None);
    assert_eq!(ledger.market.total_wallets, 1);
    assert_eq!(num(ledger.market.pool_size.0), 1000);
    // The largest pool balance times a million
    assert_eq!(num(ledger.market.lp_shares.0), 900_000_000);
    assert_eq!(ledger.market.outcomes.len(), 2);
    assert_eq!(ledger.market.outcomes[0].id, OutcomeId(0));
    assert_eq!(ledger.market.outcomes[1].id, OutcomeId(1));
    assert_eq!(ledger.market.outcomes[1].label, "1");
    assert_eq!(num(ledger.market.outcomes[0].pool_tokens.0), 100);
    assert_eq!(num(ledger.market.outcomes[1].pool_tokens.0), 900);
    assert_eq!(ledger.holders.len(), 1);
    assert_eq!(ledger.holders[0].addr, "house");
    assert_eq!(amounts(&ledger.holders[0].info.outcomes), vec![900, 100]);
    assert_eq!(num(ledger.holders[0].info.shares.0), 900_000_000);
    assert!(!ledger.holders[0].info.claimed_winnings);

    // An outcome that starts with all its tokens in the pool counts no wallet
    let single = add_market(MarketId(2), Timestamp(0), params(&[100]), coin(100)).unwrap();
    assert!(single.sanity(Timestamp(0)));
    assert_eq!(single.market.outcomes[0].wallets, 0);
    assert_eq!(single.market.total_wallets, 1);
    assert_eq!(amounts(&single.holders[0].info.outcomes), vec![0]);
}

#[test]
fn initial_outcomes_add_up_to_the_collateral() {
    let defs = params(&[100, 900]).outcomes;
    let initial = initial_outcomes(defs, Collateral(u(1000))).unwrap();
    assert_eq!(amounts(&initial.returned), vec![900, 100]);
    assert_eq!(initial.outcomes[0].wallets, 1);
    assert_eq!(initial.outcomes[0].id, OutcomeId(0));
    assert_eq!(initial.outcomes[1].label, "1");
    assert!(matches!(
        initial_outcomes(params(&[100, 900]).outcomes, Collateral(u(999))),
        Err(Error::IncorrectFundsPerOutcome { .. })
    ));
    assert!(matches!(
        initial_outcomes(params(&[100, 900, 1]).outcomes, Collateral(u(1000))),
        Err(Error::IncorrectFundsPerOutcome { .. })
    ));
    assert!(matches!(
        initial_outcomes(params(&[0, 1000]).outcomes, Collateral(u(1000))),
        Err(Error::OutcomeWeightCannotBeZero)
    ));
    assert!(matches!(
        initial_outcomes(vec![], Collateral(u(0))),
        Err(Error::UnsupportedOutcomeCount { total_outcomes: 0 })
    ));
}

#[test]
fn a_market_that_would_mint_too_many_shares_is_refused() {
    let mut asked = params(&[1, 1]);
    asked.outcomes[0].initial_amount = Token(U256 { bytes: [255u8; 32] });
    // The coin cannot cover it, and the shares would not fit
    assert!(matches!(
        add_market(MarketId(1), Timestamp(0), asked, coin(2)),
        Err(Error::IncorrectFundsPerOutcome { .. })
    ));
}

#[test]
fn liquidity_is_assigned_to_the_provider() {
    let mut ledger = ledger();
    let minted = AddLiquidity {
        lp: LpShare(u(5)),
        returned_to_user: vec![Token(u(7)), Token(u(0))],
        added_to_pool: vec![Token(u(0)), Token(u(7))],
    };
    minted.assign_to(&mut ledger, &"better".to_owned()).unwrap();
    let held = ShareInfo::load(&ledger, &"better".to_owned()).unwrap();
    assert_eq!(amounts(&held.outcomes), vec![7, 0]);
    assert_eq!(num(held.shares.0), 5);
    assert_eq!(ledger.market.total_wallets, 2);
    assert_eq!(ledger.market.outcomes[0].wallets, 2);
    assert_eq!(ledger.market.outcomes[1].wallets, 1);
    assert!(ShareInfo::load(&ledger, &"nobody".to_owned()).is_none());
    assert!(ledger.position(&"nobody".to_owned()).outcomes.len() == 2);

    // Shares alone make a wallet count, but for no outcome
    let minted = AddLiquidity {
        lp: LpShare(u(5)),
        returned_to_user: vec![Token(u(0)), Token(u(0))],
        added_to_pool: vec![Token(u(7)), Token(u(7))],
    };
    minted.assign_to(&mut ledger, &"provider".to_owned()).unwrap();
    assert_eq!(ledger.market.total_wallets, 3);
    assert_eq!(ledger.market.outcomes[0].wallets, 2);

    let before = format!("{ledger:?}");
    let minted = AddLiquidity {
        lp: LpShare(U256 { bytes: [255u8; 32] }),
        returned_to_user: vec![Token(u(0)), Token(u(0))],
        added_to_pool: vec![Token(u(0)), Token(u(0))],
    };
    assert!(matches!(
        minted.assign_to(&mut ledger, &"provider".to_owned()),
        Err(Error::Overflow)
    ));
    assert_eq!(before, format!("{ledger:?}"));
}

#[test]
fn positions_are_kept_by_address() {
    let mut ledger = ledger();
    let position = ShareInfo {
        outcomes: vec![Token(u(1)), Token(u(2))],
        shares: LpShare(u(3)),
        claimed_winnings: false,
    };
    position.save(&mut ledger, &"better".to_owned());
    assert_eq!(ledger.holders.len(), 2);
    assert_eq!(ledger.lookup(&"better".to_owned()), Some(1));
    assert_eq!(ledger.lookup(&"house".to_owned()), Some(0));
    assert_eq!(ledger.lookup(&"nobody".to_owned()), None);
    let other = ShareInfo {
        outcomes: vec![Token(u(4)), Token(u(5))],
        shares: LpShare(u(6)),
        claimed_winnings: true,
    };
    other.save(&mut ledger, &"better".to_owned());
    assert_eq!(ledger.holders.len(), 2);
    let held = ShareInfo::load(&ledger, &"better".to_owned()).unwrap();
    assert_eq!(amounts(&held.outcomes), vec![4, 5]);
    assert!(held.claimed_winnings);
    assert_eq!(amounts(&held.copy().outcomes), vec![4, 5]);
}

#[test]
fn counts_follow_a_change_of_position() {
    let counts = Counts {
        wallets: vec![1, 0],
        total: 1,
    };
    let none = ShareInfo::new(2);
    let first = ShareInfo {
        outcomes: vec![Token(u(1)), Token(u(0))],
        shares: LpShare(u(0)),
        claimed_winnings: false,
    };
    let second = ShareInfo {
        outcomes: vec![Token(u(0)), Token(u(9))],
        shares: LpShare(u(0)),
        claimed_winnings: false,
    };
    let moved = counts.moved(&none, &second).unwrap();
    assert_eq!((moved.total, moved.wallets), (2, vec![1, 1]));
    let moved = counts.moved(&first, &second).unwrap();
    assert_eq!((moved.total, moved.wallets), (1, vec![0, 1]));
    let moved = counts.moved(&first, &none).unwrap();
    assert_eq!((moved.total, moved.wallets), (0, vec![0, 0]));
    assert!(matches!(counts.moved(&second, &none), Err(Error::Underflow)));
    let full = Counts {
        wallets: vec![1, u32::MAX],
        total: 1,
    };
    assert!(matches!(full.moved(&first, &second), Err(Error::Overflow)));
    assert_eq!(
        amounts(&only_tokens(3, 1, Token(u(8)))),
        vec![0, 8, 0]
    );
}

#[test]
fn winnings_must_fit_a_coin() {
    let mut ledger = ledger();
    ledger.market.winner = Some(OutcomeId(0));
    let mut bytes = [0u8; 32];
    bytes[15] = 1;
    let rich = ShareInfo {
        outcomes: vec![Token(U256 { bytes }), Token(u(0))],
        shares: LpShare(u(0)),
        claimed_winnings: false,
    };
    rich.save(&mut ledger, &"better".to_owned());
    assert!(matches!(
        ledger.collect(&"better".to_owned()),
        Err(Error::ConversionOverflow)
    ));
    // One token less fits
    let fitting = ShareInfo {
        outcomes: vec![Token(u(u128::MAX)), Token(u(0))],
        shares: LpShare(u(0)),
        claimed_winnings: false,
    };
    fitting.save(&mut ledger, &"better".to_owned());
    assert_eq!(
        ledger.collect(&"better".to_owned()).unwrap().winnings,
        u128::MAX
    );
}

#[test]
fn queries_are_answered_from_the_state() {
    let mut state = instantiate("admin".to_owned());
    assert!(sanity(&state, Timestamp(0)));
    match query(&state, QueryMsg::GlobalInfo {}).unwrap() {
        Answer::GlobalInfo(info) => {
            assert_eq!(info.admin, "admin");
            assert_eq!(info.latest_market_id, None);
        }
        other => panic!("{other:?}"),
    }
    assert!(matches!(
        query(&state, QueryMsg::Market { id: MarketId(1) }),
        Err(Error::MarketNotFound { id: MarketId(1) })
    ));
    state.ledgers.push(ledger());
    state.last_market_id = Some(MarketId(1));
    assert!(sanity(&state, Timestamp(0)));
    match query(&state, QueryMsg::Market { id: MarketId(1) }).unwrap() {
        Answer::Market(market) => assert_eq!(market.title, "Title"),
        other => panic!("{other:?}"),
    }
    assert_eq!(
        StoredMarket::load(&state, MarketId(1)).unwrap().house,
        "house"
    );
    let asked = QueryMsg::Positions {
        id: MarketId(1),
        addr: "house".to_owned(),
    };
    match query(&state, asked).unwrap() {
        Answer::Positions(info) => assert_eq!(amounts(&info.outcomes), vec![900, 100]),
        other => panic!("{other:?}"),
    }
    let asked = QueryMsg::Positions {
        id: MarketId(1),
        addr: "nobody".to_owned(),
    };
    match query(&state, asked).unwrap() {
        Answer::Positions(info) => assert_eq!(amounts(&info.outcomes), vec![0, 0]),
        other => panic!("{other:?}"),
    }
    let asked = QueryMsg::Positions {
        id: MarketId(2),
        addr: "house".to_owned(),
    };
    assert!(matches!(
        query(&state, asked),
        Err(Error::MarketNotFound { id: MarketId(2) })
    ));

    let info = predict::api::MessageInfo {
        sender: "admin".to_owned(),
        funds: vec![],
    };
    assert!(assert_is_admin(&state, &info).is_ok());
    let info = predict::api::MessageInfo {
        sender: "house".to_owned(),
        funds: vec![],
    };
    assert!(matches!(
        assert_is_admin(&state, &info),
        Err(Error::Unauthorized)
    ));
    assert!(Funds::NoFunds.require_none().is_ok());
    assert_eq!(
        num(coin(5).require_funds(&"satoshi".to_owned()).unwrap().0),
        5
    );
    assert_eq!(
        predict::api::default_liquidity_portion(),
        dec("0.1")
    );
}
