use predict::decimal::Decimal;
use predict::error::Error;
use predict::types::{mul_ceil, mul_floor, Collateral, LpShare, MarketId, OutcomeId, Token};
use predict::wide::U256;

fn u(x: u128) -> U256 {
    U256 {
        bytes: cosmwasm_std::Uint256::from_u128(x).to_be_bytes(),
    }
}

fn max_u256() -> U256 {
    U256 { bytes: [255u8; 32] }
}

fn dec(input: &str) -> Decimal {
    let parsed: cosmwasm_std::Decimal256 = input.parse().unwrap();
    Decimal::new(U256 {
        bytes: parsed.atomics().to_be_bytes(),
    })
}

#[test]
fn integers_are_held_most_significant_byte_first() {
    let mut bytes = [0u8; 32];
    bytes[31] = 1;
    assert_eq!(U256::one(), U256 { bytes });
    assert_eq!(U256::zero(), U256 { bytes: [0u8; 32] });
    // 10^18, the atomic units of 1.0
    let mut unit = [0u8; 32];
    unit[24..].copy_from_slice(&1_000_000_000_000_000_000u64.to_be_bytes());
    assert_eq!(Decimal::one().atomics, U256 { bytes: unit });
    assert_eq!(Decimal::zero().atomics, U256::zero());
}

#[test]
fn integers_are_compared_by_value() {
    assert!(u(256).le(&u(256)));
    assert!(u(255).le(&u(256)));
    assert!(!u(257).le(&u(256)));
    assert!(u(7).same(&u(7)));
    assert!(!u(7).same(&u(8)));
    assert!(!u(256).same(&u(1)));
    assert_eq!(u(7).min(u(8)), u(7));
    assert_eq!(u(9).min(u(8)), u(8));
    assert_eq!(u(256).min(u(255)), u(255));
    // The derived order is that of the values
    assert!(u(255) < u(256));
    assert!(u(1 << 64) > u(u64::MAX.into()));
    assert!(Token(u(2)) > Token(u(1)));
    assert!(dec("0.5") < dec("1"));
}

#[test]
fn ratios_have_eighteen_digits() {
    assert_eq!(dec("0.01").atomics, u(10_000_000_000_000_000));
    assert_eq!(Decimal::from_uint(u(3)), Some(dec("3")));
    assert_eq!(Decimal::from_uint(max_u256()), None);
    assert_eq!(dec("0.5").scale(u(7)), Some(dec("3.5")));
    assert_eq!(dec("2").scale(max_u256()), None);
    assert_eq!(
        Token(u(1)).ratio(Token(u(3))).unwrap().atomics,
        u(333_333_333_333_333_333)
    );
    assert!(matches!(
        Token(u(1)).ratio(Token(u(0))),
        Err(Error::DivideByZero)
    ));
    assert!(matches!(
        Token(max_u256()).ratio(Token(u(1))),
        Err(Error::Overflow)
    ));
}

#[test]
fn amounts_are_scaled_with_their_rounding() {
    // What is paid out is rounded down, what is owed as a fee is rounded up
    assert_eq!(mul_floor(u(1000), dec("0.0105")).unwrap(), u(10));
    assert_eq!(mul_ceil(u(1000), dec("0.0105")).unwrap(), u(11));
    assert_eq!(mul_ceil(u(1000), dec("0.01")).unwrap(), u(10));
    assert_eq!(mul_floor(u(1000), dec("0.0109")).unwrap(), u(10));
    assert_eq!(mul_ceil(u(0), dec("0.01")).unwrap(), u(0));
    assert_eq!(
        Collateral(u(990_000)).mul_floor(dec("0.1")).unwrap(),
        Collateral(u(99_000))
    );
    assert_eq!(
        Collateral(u(101)).mul_ceil(dec("0.02")).unwrap(),
        Collateral(u(3))
    );
    assert_eq!(Token(u(7)).mul_floor(dec("0.5")).unwrap(), Token(u(3)));
    assert_eq!(LpShare(u(7)).mul_floor(dec("2")).unwrap(), LpShare(u(14)));
    assert!(matches!(
        Collateral(max_u256()).mul_floor(dec("0.1")),
        Err(Error::Overflow)
    ));
    assert!(matches!(
        Collateral(max_u256()).mul_ceil(dec("0.1")),
        Err(Error::Overflow)
    ));
    assert_eq!(Token(u(3)).to_decimal256().unwrap(), dec("3"));
    assert!(matches!(
        Token(max_u256()).to_decimal256(),
        Err(Error::Overflow)
    ));
    assert_eq!(Token(u(1)).ratio(Token(u(4))).unwrap(), dec("0.25"));
    assert_eq!(Collateral(u(3)).ratio(Collateral(u(2))).unwrap(), dec("1.5"));
    assert_eq!(LpShare(u(1)).ratio(LpShare(u(8))).unwrap(), dec("0.125"));
    assert!(matches!(
        LpShare(u(1)).ratio(LpShare(u(0))),
        Err(Error::DivideByZero)
    ));
}

#[test]
fn amounts_do_not_wrap() {
    assert_eq!(
        Collateral(u(5)).checked_add(Collateral(u(7))).unwrap(),
        Collateral(u(12))
    );
    assert_eq!(
        Collateral(max_u256()).checked_add(Collateral(u(0))).unwrap(),
        Collateral(max_u256())
    );
    assert!(matches!(
        Collateral(max_u256()).checked_add(Collateral(u(1))),
        Err(Error::Overflow)
    ));
    assert_eq!(
        Collateral(u(7)).checked_sub(Collateral(u(5))).unwrap(),
        Collateral(u(2))
    );
    assert_eq!(
        Collateral(u(7)).checked_sub(Collateral(u(7))).unwrap(),
        Collateral(u(0))
    );
    assert!(matches!(
        Collateral(u(5)).checked_sub(Collateral(u(7))),
        Err(Error::Underflow)
    ));
    assert_eq!(Token(u(5)).checked_add(Token(u(7))).unwrap(), Token(u(12)));
    assert!(matches!(
        Token(max_u256()).checked_add(Token(u(1))),
        Err(Error::Overflow)
    ));
    assert_eq!(Token(u(12)).checked_sub(Token(u(7))).unwrap(), Token(u(5)));
    assert!(matches!(
        Token(u(5)).checked_sub(Token(u(7))),
        Err(Error::Underflow)
    ));
    assert_eq!(
        LpShare(u(5)).checked_add(LpShare(u(7))).unwrap(),
        LpShare(u(12))
    );
    assert!(matches!(
        LpShare(max_u256()).checked_add(LpShare(u(1))),
        Err(Error::Overflow)
    ));
    assert_eq!(
        LpShare(u(12)).checked_sub(LpShare(u(7))).unwrap(),
        LpShare(u(5))
    );
    assert!(matches!(
        LpShare(u(5)).checked_sub(LpShare(u(7))),
        Err(Error::Underflow)
    ));
    assert!(Token::zero().is_zero());
    assert!(Collateral::zero().is_zero());
    assert!(LpShare::zero().is_zero());
    assert!(!Token(u(1)).is_zero());
    assert!(!Token(u(256)).is_zero());
    assert!(!Collateral(u(1)).is_zero());
    assert!(!LpShare(u(1)).is_zero());
}

#[test]
fn ids_are_numbered() {
    assert_eq!(MarketId::one(), MarketId(1));
    assert_eq!(MarketId::one().next(), MarketId(2));
    assert_eq!(OutcomeId(7).usize(), 7);
    assert_eq!(OutcomeId::try_from_index(255).unwrap(), OutcomeId(255));
    assert!(matches!(
        OutcomeId::try_from_index(256),
        Err(Error::TooManyOutcomes { idx: 256 })
    ));
}
