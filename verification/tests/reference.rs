use cosmwasm_std::{Decimal256, Uint256};
use predict::cpmm::Pool;
use predict::decimal::Decimal;
use predict::types::{Collateral, LpShare, Token};
use predict::wide::U256;

fn wide(x: Uint256) -> U256 {
    U256 {
        bytes: x.to_be_bytes(),
    }
}

fn narrow(x: U256) -> Uint256 {
    Uint256::from_be_bytes(x.bytes)
}

fn pool(tokens: &[Uint256], size: Uint256, shares: Uint256) -> Pool {
    Pool {
        tokens: tokens.iter().map(|t| Token(wide(*t))).collect(),
        size: Collateral(wide(size)),
        shares: LpShare(wide(shares)),
    }
}

fn balances(pool: &Pool) -> Vec<Uint256> {
    pool.tokens.iter().map(|t| narrow(t.0)).collect()
}

/// A small generator of numbers, the same on every run.
struct Numbers(u64);

impl Numbers {
    fn next(&mut self, below: u64) -> u64 {
        self.0 = self
            .0
            .wrapping_mul(6364136223846793005)
            .wrapping_add(1442695040888963407);
        (self.0 >> 33) % below
    }
}

/// Liquidity as `Uint256` computes it: the pool's part of the new tokens of
/// each outcome, and the shares minted.
fn liquidity(tokens: &[Uint256], shares: Uint256, funds: Uint256) -> (Vec<Uint256>, Uint256) {
    let weight = *tokens.iter().max().unwrap();
    let for_pool = tokens.iter().map(|t| funds * *t / weight).collect();
    (for_pool, funds * shares / weight)
}

#[test]
fn liquidity_is_what_the_integers_give() {
    let mut numbers = Numbers(7);
    for _ in 0..300 {
        let count = 1 + numbers.next(4) as usize;
        let tokens: Vec<Uint256> = (0..count)
            .map(|_| Uint256::from(1 + numbers.next(1_000_000)))
            .collect();
        let size = Uint256::from(numbers.next(10_000_000));
        let shares = Uint256::from(numbers.next(1_000_000_000));
        let funds = Uint256::from(numbers.next(100_000));
        let (for_pool, minted) = liquidity(&tokens, shares, funds);

        let (after, handed) = pool(&tokens, size, shares)
            .add_liquidity(Collateral(wide(funds)))
            .unwrap();
        assert_eq!(narrow(handed.lp.0), minted);
        assert_eq!(narrow(after.shares.0), shares + minted);
        assert_eq!(narrow(after.size.0), size + funds);
        for i in 0..count {
            assert_eq!(narrow(after.tokens[i].0), tokens[i] + for_pool[i]);
            assert_eq!(narrow(handed.added_to_pool[i].0), for_pool[i]);
            assert_eq!(narrow(handed.returned_to_user[i].0), funds - for_pool[i]);
        }
    }
}

#[test]
fn purchases_are_what_the_integers_give() {
    let mut numbers = Numbers(11);
    for _ in 0..300 {
        let count = 1 + numbers.next(4) as usize;
        let tokens: Vec<Uint256> = (0..count)
            .map(|_| Uint256::from(1 + numbers.next(1_000_000)))
            .collect();
        let size = Uint256::from(numbers.next(10_000_000));
        let shares = Uint256::from(numbers.next(1_000_000_000));
        let funds = Uint256::from(numbers.next(1_000_000));
        let selected = numbers.next(count as u64) as usize;
        let ratio = Decimal256::from_ratio(numbers.next(1000), 1000u64);

        let part = (Decimal256::from_ratio(funds, 1u8) * ratio).to_uint_floor();
        let (for_pool, minted) = liquidity(&tokens, shares, part);
        let mut whole = Uint256::one();
        let mut others = Uint256::one();
        for i in 0..count {
            whole *= tokens[i] + for_pool[i];
            if i != selected {
                others *= tokens[i] + funds;
            }
        }
        let kept = whole / others;
        let bought = tokens[selected] + funds - kept;

        let liquidity = Decimal::new(wide(ratio.atomics()));
        let (after, handed) = pool(&tokens, size, shares)
            .buy(selected, Collateral(wide(funds)), liquidity)
            .unwrap();
        assert_eq!(narrow(handed.tokens.0), bought);
        assert_eq!(narrow(handed.lp.0), minted);
        assert_eq!(narrow(after.size.0), size + funds);
        assert_eq!(narrow(after.shares.0), shares + minted);
        for i in 0..count {
            let expected = if i == selected {
                kept
            } else {
                tokens[i] + funds
            };
            assert_eq!(narrow(after.tokens[i].0), expected);
        }
    }
}

#[test]
fn sales_are_what_the_decimals_give() {
    let mut numbers = Numbers(13);
    for _ in 0..300 {
        let tokens = [
            Uint256::from(1 + numbers.next(1_000_000)),
            Uint256::from(1 + numbers.next(1_000_000)),
        ];
        let size = Uint256::from(100_000_000u64);
        let sold = Uint256::from(numbers.next(2_000_000));
        let selected = numbers.next(2) as usize;

        let pool_selected = Decimal256::from_ratio(tokens[selected], 1u8);
        let pool_unselected = Decimal256::from_ratio(tokens[1 - selected], 1u8);
        let given = Decimal256::from_ratio(sold, 1u8);
        let new_pool_selected = pool_selected + given;
        let negb = new_pool_selected + pool_unselected;
        let c = new_pool_selected * pool_unselected - pool_selected * pool_unselected;
        let radical = (negb * negb - Decimal256::from_ratio(4u8, 1u8) * c).sqrt();
        let to_burn = (negb - radical) / Decimal256::from_ratio(2u8, 1u8);
        let to_sell = (given - to_burn).to_uint_floor();
        let to_burn = sold - to_sell;
        let product = pool_selected * pool_unselected;
        let final_selected = pool_selected + Decimal256::from_ratio(to_sell, 1u8);
        let final_unselected = product / final_selected;
        let to_buy = (pool_unselected - final_unselected).to_uint_floor();
        let redeemed = to_burn.min(to_buy);

        let (after, handed) = pool(&tokens, size, Uint256::zero())
            .sell(selected, Token(wide(sold)))
            .unwrap();
        let after = balances(&after);
        assert_eq!(after[selected], tokens[selected] + to_sell);
        assert_eq!(after[1 - selected], tokens[1 - selected] - to_buy);
        assert_eq!(narrow(handed.funds.0), redeemed);
        assert_eq!(narrow(handed.returned[selected].0), to_burn - redeemed);
        assert_eq!(narrow(handed.returned[1 - selected].0), to_buy - redeemed);
    }
}
