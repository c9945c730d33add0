use amm_ledger::error::ContractError;
use amm_ledger::identity::Identity;
use amm_ledger::token::{Key, TokenContract, TokenEvent, DECIMALS};

fn id(name: &str) -> Identity {
    Identity::new(name.as_bytes().to_vec())
}

fn ledger(supply: i128) -> TokenContract {
    let mut c = TokenContract::new();
    assert_eq!(c.init(id("admin"), b"Coin".to_vec(), b"CN".to_vec(), supply), Ok(()));
    c
}

fn bal(c: &TokenContract, who: &str) -> i128 {
    c.balance(&id(who)).unwrap()
}

fn supply_is_sum(c: &TokenContract) -> bool {
    let st = c.state.as_ref().unwrap();
    st.balances.iter().map(|b| b.amount).sum::<i128>() == st.total_supply
}

#[test]
fn init_gives_admin_the_supply() {
    let mut c = ledger(500);
    assert_eq!(bal(&c, "admin"), 500);
    assert_eq!(bal(&c, "bob"), 0);
    assert_eq!(c.total_supply(), Ok(500));
    assert_eq!(c.name(), Ok(b"Coin".to_vec()));
    assert_eq!(c.symbol(), Ok(b"CN".to_vec()));
    assert_eq!(c.state.as_ref().unwrap().decimals, DECIMALS);
    assert_eq!(DECIMALS, 7);
    assert!(c.has(Key::State));
    assert!(c.is_valid());
    let events = c.take_events();
    assert_eq!(events.len(), 1);
    match &events[0] {
        TokenEvent::Init { admin, name, symbol, supply } => {
            assert!(admin.same_as(&id("admin")));
            assert_eq!((name.as_slice(), symbol.as_slice(), *supply), (&b"Coin"[..], &b"CN"[..], 500));
        }
        _ => panic!("expected an init event"),
    }
}

#[test]
fn init_only_once() {
    let mut c = ledger(500);
    assert_eq!(
        c.init(id("x"), b"A".to_vec(), b"B".to_vec(), 9),
        Err(ContractError::AlreadyInitialized)
    );
    assert_eq!(bal(&c, "admin"), 500);
    assert_eq!(bal(&c, "x"), 0);
}

#[test]
fn init_rejects_non_positive_supply() {
    let mut c = TokenContract::new();
    assert_eq!(
        c.init(id("a"), b"A".to_vec(), b"B".to_vec(), 0),
        Err(ContractError::InvalidAmount)
    );
    assert!(!c.has(Key::State));
    assert_eq!(c.balance(&id("a")), Err(ContractError::NotInitialized));
    assert_eq!(c.name(), Err(ContractError::NotInitialized));
    assert_eq!(c.symbol(), Err(ContractError::NotInitialized));
}

#[test]
fn transfer_scenario() {
    let mut c = ledger(500);
    c.take_events();
    assert_eq!(c.transfer(id("admin"), id("bob"), 200, true), Ok(()));
    assert_eq!(bal(&c, "admin"), 300);
    assert_eq!(bal(&c, "bob"), 200);
    assert_eq!(c.total_supply(), Ok(500));
    assert!(supply_is_sum(&c));
    let events = c.take_events();
    match &events[..] {
        [TokenEvent::Transfer { from, to, amount }] => {
            assert!(from.same_as(&id("admin")) && to.same_as(&id("bob")));
            assert_eq!(*amount, 200);
        }
        _ => panic!("expected one transfer event"),
    }
}

#[test]
fn transfer_to_existing_holder_and_self() {
    let mut c = ledger(500);
    c.transfer(id("admin"), id("bob"), 200, true).unwrap();
    c.transfer(id("bob"), id("admin"), 50, true).unwrap();
    assert_eq!((bal(&c, "admin"), bal(&c, "bob")), (350, 150));
    assert_eq!(c.transfer(id("bob"), id("bob"), 150, true), Ok(()));
    assert_eq!(bal(&c, "bob"), 150);
    assert_eq!(c.events.len(), 4);
    assert!(supply_is_sum(&c));
    assert!(c.is_valid());
}

#[test]
fn transfer_beyond_balance_changes_nothing() {
    let mut c = ledger(500);
    c.transfer(id("admin"), id("bob"), 200, true).unwrap();
    let events_before = c.events.len();
    assert_eq!(c.transfer(id("bob"), id("carol"), 201, true), Err(ContractError::InsufficientBalance));
    assert_eq!(c.transfer(id("carol"), id("bob"), 1, true), Err(ContractError::InsufficientBalance));
    assert_eq!((bal(&c, "admin"), bal(&c, "bob"), bal(&c, "carol")), (300, 200, 0));
    assert_eq!(c.events.len(), events_before);
}

#[test]
fn transfer_errors() {
    let mut c = ledger(500);
    assert_eq!(c.transfer(id("admin"), id("bob"), 10, false), Err(ContractError::Unauthorized));
    assert_eq!(c.transfer(id("admin"), id("bob"), 0, true), Err(ContractError::InvalidAmount));
    assert_eq!(c.transfer(id("admin"), id("bob"), -4, true), Err(ContractError::InvalidAmount));
    let mut empty = TokenContract::new();
    assert_eq!(empty.transfer(id("a"), id("b"), 1, true), Err(ContractError::NotInitialized));
    assert_eq!(bal(&c, "admin"), 500);
}

#[test]
fn mint_by_admin() {
    let mut c = ledger(500);
    assert_eq!(c.mint(id("admin"), id("bob"), 70, true), Ok(()));
    assert_eq!(c.mint(id("admin"), id("admin"), 30, true), Ok(()));
    assert_eq!((bal(&c, "admin"), bal(&c, "bob")), (530, 70));
    assert_eq!(c.total_supply(), Ok(600));
    assert!(supply_is_sum(&c));
    match c.events.last() {
        Some(TokenEvent::Mint { admin, to, amount }) => {
            assert!(admin.same_as(&id("admin")) && to.same_as(&id("admin")));
            assert_eq!(*amount, 30);
        }
        _ => panic!("expected a mint event"),
    }
}

#[test]
fn mint_by_non_admin_changes_nothing() {
    let mut c = ledger(500);
    assert_eq!(c.mint(id("mallory"), id("mallory"), 100, true), Err(ContractError::NotAdmin));
    assert_eq!(c.total_supply(), Ok(500));
    assert_eq!((bal(&c, "admin"), bal(&c, "mallory")), (500, 0));
}

#[test]
fn mint_errors() {
    let mut c = ledger(500);
    assert_eq!(c.mint(id("admin"), id("b"), 1, false), Err(ContractError::Unauthorized));
    assert_eq!(c.mint(id("admin"), id("b"), 0, true), Err(ContractError::InvalidAmount));
    assert_eq!(
        c.mint(id("admin"), id("b"), i128::MAX, true),
        Err(ContractError::ArithmeticOverflow)
    );
    let mut empty = TokenContract::new();
    assert_eq!(empty.mint(id("admin"), id("b"), 1, true), Err(ContractError::NotInitialized));
    assert_eq!(c.total_supply(), Ok(500));
}

#[test]
fn supply_matches_sum_over_a_sequence() {
    let mut c = ledger(1_000);
    let steps: [(&str, &str, i128, bool); 6] = [
        ("admin", "a", 100, false),
        ("admin", "b", 50, true),
        ("a", "b", 30, false),
        ("b", "c", 80, false),
        ("admin", "c", 5, true),
        ("c", "a", 85, false),
    ];
    for (from, to, amount, is_mint) in steps {
        if is_mint {
            c.mint(id(from), id(to), amount, true).unwrap();
        } else {
            c.transfer(id(from), id(to), amount, true).unwrap();
        }
        assert!(supply_is_sum(&c));
        assert!(c.is_valid());
    }
    assert_eq!(c.total_supply(), Ok(1_055));
    assert_eq!((bal(&c, "a"), bal(&c, "b"), bal(&c, "c")), (155, 0, 0));
}

#[test]
fn invalid_ledger_is_detected() {
    let mut c = ledger(500);
    c.state.as_mut().unwrap().total_supply = 499;
    assert!(!c.is_valid());
    let mut d = ledger(500);
    let dup = d.state.as_ref().unwrap().balances[0].clone();
    d.state.as_mut().unwrap().balances.push(dup);
    d.state.as_mut().unwrap().total_supply = 1_000;
    assert!(!d.is_valid());
}

#[test]
fn name_and_symbol_keep_any_bytes() {
    let mut c = TokenContract::new();
    let name = vec![0xff, 0x00, 0xc3];
    let symbol = vec![0x80];
    assert_eq!(c.init(id("admin"), name.clone(), symbol.clone(), 10), Ok(()));
    assert_eq!(c.name(), Ok(name));
    assert_eq!(c.symbol(), Ok(symbol));
}
