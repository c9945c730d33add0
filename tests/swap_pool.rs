use amm_ledger::error::ContractError;
use amm_ledger::identity::Identity;
use amm_ledger::swap::{Keys, SwapContract};

fn id(name: &str) -> Identity {
    Identity::new(name.as_bytes().to_vec())
}

fn pool(xlm: i128, token: i128) -> SwapContract {
    let mut c = SwapContract::new();
    assert_eq!(c.init(id("admin"), id("token"), xlm, token), Ok(()));
    c
}

fn reserves(c: &SwapContract) -> (i128, i128) {
    let p = c.get_pool().unwrap();
    (p.xlm_reserve, p.token_reserve)
}

#[test]
fn init_creates_pool_and_counter() {
    let c = pool(1_000, 2_000);
    assert_eq!(reserves(&c), (1_000, 2_000));
    assert_eq!(c.total_swaps(), 0);
    assert!(c.has(Keys::Pool) && c.has(Keys::Admin) && c.has(Keys::TotalSwaps));
    assert!(c.get_pool().unwrap().token_contract.same_as(&id("token")));
    assert!(c.events.is_empty());
    assert!(c.is_valid());
}

#[test]
fn second_init_is_refused() {
    let mut c = pool(10, 20);
    assert_eq!(c.init(id("other"), id("t2"), 5, 5), Err(ContractError::AlreadyInitialized));
    assert_eq!(c.init(id("other"), id("t2"), 0, -1), Err(ContractError::AlreadyInitialized));
    assert_eq!(reserves(&c), (10, 20));
}

#[test]
fn init_rejects_non_positive_seeds() {
    let mut c = SwapContract::new();
    assert_eq!(c.init(id("a"), id("t"), 0, 5), Err(ContractError::InvalidAmount));
    assert_eq!(c.init(id("a"), id("t"), 5, -3), Err(ContractError::InvalidAmount));
    assert!(!c.has(Keys::Pool));
    assert_eq!(c.get_pool().unwrap_err(), ContractError::NotInitialized);
}

#[test]
fn swap_xlm_to_token_exact_scenario() {
    // effective_in = 997000, numerator = 997000 * 1_000_000,
    // denominator = 1_000_000 * 1000 + 997000 = 1_000_997_000.
    let mut c = pool(1_000_000, 1_000_000);
    let out = c.swap_xlm_to_token(id("user"), 1_000, true);
    assert_eq!(out, Ok(997_000i128 * 1_000_000 / 1_000_997_000));
    assert_eq!(out, Ok(996));
    assert_eq!(reserves(&c), (1_001_000, 999_004));
    assert_eq!(c.total_swaps(), 1);
    let events = c.take_events();
    assert_eq!(events.len(), 1);
    assert!(events[0].user.same_as(&id("user")));
    assert_eq!((events[0].amount_in, events[0].amount_out), (1_000, 996));
    assert!(c.events.is_empty());
}

#[test]
fn swap_formula_both_directions() {
    let mut a = pool(5_000, 8_000);
    assert_eq!(a.swap_xlm_to_token(id("u"), 300, true), Ok(451));
    assert_eq!(reserves(&a), (5_300, 7_549));
    let mut b = pool(5_000, 8_000);
    assert_eq!(b.swap_token_to_xlm(id("u"), 300, true), Ok(180));
    assert_eq!(reserves(&b), (4_820, 8_300));
    assert_eq!(b.total_swaps(), 1);
}

#[test]
fn swap_raises_reserve_product() {
    let mut c = pool(5_000, 8_000);
    let before = 5_000i128 * 8_000;
    c.swap_xlm_to_token(id("u"), 300, true).unwrap();
    let (x, t) = reserves(&c);
    assert!(x * t > before);
    let mid = x * t;
    c.swap_token_to_xlm(id("u"), 1_000, true).unwrap();
    let (x, t) = reserves(&c);
    assert!(x * t > mid);
}

#[test]
fn swap_output_stays_below_reserve() {
    let mut c = pool(10, 10);
    let out = c.swap_xlm_to_token(id("u"), 1_000_000, true).unwrap();
    assert_eq!(out, 9);
    assert!(out > 0 && out < 10);
    assert_eq!(reserves(&c), (1_000_010, 1));
}

#[test]
fn swap_with_zero_output_is_refused() {
    let mut c = pool(1_000_000, 1_000_000);
    assert_eq!(c.swap_xlm_to_token(id("u"), 1, true), Err(ContractError::InsufficientLiquidity));
    assert_eq!(c.swap_token_to_xlm(id("u"), 1, true), Err(ContractError::InsufficientLiquidity));
    assert_eq!(reserves(&c), (1_000_000, 1_000_000));
    assert_eq!(c.total_swaps(), 0);
    assert!(c.events.is_empty());
}

#[test]
fn round_trip_returns_less() {
    let mut c = pool(1_000_000, 1_000_000);
    let got = c.swap_xlm_to_token(id("u"), 1_000, true).unwrap();
    let back = c.swap_token_to_xlm(id("u"), got, true).unwrap();
    assert_eq!(back, 994);
    assert!(back < 1_000);
    assert_eq!(c.total_swaps(), 2);
}

#[test]
fn swap_errors() {
    let mut c = pool(1_000, 1_000);
    assert_eq!(c.swap_xlm_to_token(id("u"), 10, false), Err(ContractError::Unauthorized));
    assert_eq!(c.swap_xlm_to_token(id("u"), 0, true), Err(ContractError::InvalidAmount));
    assert_eq!(c.swap_token_to_xlm(id("u"), -5, true), Err(ContractError::InvalidAmount));
    assert_eq!(
        c.swap_xlm_to_token(id("u"), i128::MAX / 2, true),
        Err(ContractError::ArithmeticOverflow)
    );
    let mut empty = SwapContract::new();
    assert_eq!(empty.swap_xlm_to_token(id("u"), 10, true), Err(ContractError::NotInitialized));
    assert_eq!(reserves(&c), (1_000, 1_000));
}

#[test]
fn swap_counter_overflow_is_refused() {
    let mut c = pool(1_000, 1_000);
    c.total_swaps = Some(i64::MAX);
    assert_eq!(c.swap_xlm_to_token(id("u"), 100, true), Err(ContractError::ArithmeticOverflow));
    assert_eq!(reserves(&c), (1_000, 1_000));
}

#[test]
fn price_preview_changes_nothing() {
    let c = pool(1_000_000, 1_000_000);
    assert_eq!(c.get_price(1_000), Ok(996));
    assert_eq!(c.get_price(1), Ok(0));
    assert_eq!(c.get_price(0), Ok(0));
    assert_eq!(c.get_price(-1), Err(ContractError::InvalidAmount));
    assert_eq!(c.get_price(i128::MAX), Err(ContractError::ArithmeticOverflow));
    assert_eq!(reserves(&c), (1_000_000, 1_000_000));
    assert_eq!(SwapContract::new().get_price(5), Err(ContractError::NotInitialized));
}

#[test]
fn total_swaps_defaults_to_zero() {
    assert_eq!(SwapContract::new().total_swaps(), 0);
}

#[test]
fn invalid_records_are_detected() {
    let mut c = pool(1_000, 1_000);
    c.total_swaps = Some(-1);
    assert!(!c.is_valid());
    let mut d = pool(1_000, 1_000);
    d.pool.as_mut().unwrap().token_reserve = 0;
    assert!(!d.is_valid());
}

#[test]
fn identity_comparison_and_copy() {
    let a = id("GABC");
    assert!(a.same_as(&id("GABC")));
    assert!(!a.same_as(&id("GABD")));
    assert!(!a.same_as(&id("GAB")));
    let b = a.duplicate();
    assert_eq!(b.bytes, b"GABC".to_vec());
}

#[test]
fn get_pool_returns_stored_record() {
    let c = pool(123, 456);
    let p = c.get_pool().unwrap();
    assert_eq!((p.xlm_reserve, p.token_reserve), (123, 456));
    assert!(p.token_contract.same_as(&id("token")));
}

#[test]
fn round_trip_loss_is_at_most_two_fees_when_first_leg_is_exact() {
    // 997 * 1000 * 1_997_000 divides evenly by 1000 * 1000 + 997 * 1000.
    let mut c = pool(1_000, 1_997_000);
    let got = c.swap_xlm_to_token(id("u"), 1_000, true).unwrap();
    assert_eq!(got, 997_000);
    let back = c.swap_token_to_xlm(id("u"), got, true).unwrap();
    assert_eq!(back, 996);
    assert!(back >= 1_000 * 994_009 / 1_000_000);
    assert!(back < 1_000);
}
