use candid::Principal;
use wallet_ledger::{Identity, RegistrationError, State, TransferError, User, GRANT};

fn identity_of(p: Principal) -> Identity {
    Identity::from_bytes(p.as_slice().to_vec())
}

fn caller() -> Identity {
    identity_of(Principal::anonymous())
}

fn other(tag: u8) -> Identity {
    Identity::from_bytes(vec![tag, 1, 2, 3])
}

fn user(name: &str, balance: u64) -> User {
    User { username: name.to_string(), balance }
}

#[test]
fn test_create_account() {
    let mut state = State::new();

    let username = "test_user".to_string();
    let user = User {
        username: username.clone(),
        balance: 1000,
    };

    let result = state.create_account(&caller(), user.clone());

    assert!(result.is_some());
    let created_user = result.unwrap();
    assert_eq!(created_user.username, username);
    assert_eq!(created_user.balance, 1000);

    assert!(state.is_registered(&caller()));
    assert_eq!(state.get_balance(&caller()), 1000);
}

#[test]
fn test_get_balance() {
    let mut state = State::new();

    let username = "test_user".to_string();
    let user = User {
        username: username.clone(),
        balance: 1000,
    };

    state.create_account(&caller(), user.clone());

    let balance = state.get_balance(&caller());
    assert_eq!(balance, 1000);
}

#[test]
fn test_transfer_tokens_success() {
    let mut state = State::new();

    state.create_account(&caller(), user("user1", 1000));
    state.create_account(&caller(), user("user2", 0));

    let user1_principal = caller();
    let target = identity_of(Principal::from_text("aaaaa-aa").unwrap());

    let transfer_result = state.transfer_tokens(&caller(), &target, 500);

    assert!(transfer_result.is_ok());

    assert_eq!(state.get_balance(&user1_principal), 500);
    assert_eq!(state.get_balance(&target), 500);
}

#[test]
fn test_transfer_tokens_insufficient_balance() {
    let mut state = State::new();

    // Registration always grants 1000, whatever balance the request names;
    // move 900 elsewhere so that the caller holds 100.
    state.create_account(&caller(), user("user1", 100));
    state.create_account(&caller(), user("user2", 0));
    assert!(state.transfer_tokens(&caller(), &other(9), 900).is_ok());
    assert_eq!(state.get_balance(&caller()), 100);

    let target = identity_of(Principal::from_text("aaaaa-aa").unwrap());
    let transfer_result = state.transfer_tokens(&caller(), &target, 500);

    assert!(transfer_result.is_err());
    assert_eq!(transfer_result.err().unwrap().message(), "Insufficient balance".to_string());

    assert_eq!(state.get_balance(&caller()), 100);
    assert_eq!(state.get_balance(&target), 0);
}

#[test]
fn taken_name_returns_first_owner_account() {
    let mut state = State::new();
    let first = state.register_account(&other(1), "alice".to_string()).unwrap();
    assert_eq!(first.balance, 1000);
    assert_eq!(state.total_supply(), 1000);

    let again = state.register_account(&other(2), "alice".to_string()).unwrap();
    assert_eq!(again.username, "alice");
    assert_eq!(again.balance, 1000);
    assert_eq!(state.total_supply(), 1000);
    assert_eq!(state.get_balance(&other(2)), 0);
    assert!(!state.is_registered(&other(2)));
    assert_eq!(state.get_self(&other(1)).username, "alice");
}

#[test]
fn taken_name_reports_owner_balance_after_transfers() {
    let mut state = State::new();
    state.register_account(&other(1), "alice".to_string()).unwrap();
    assert!(state.transfer_tokens(&other(1), &other(3), 250).is_ok());
    let again = state.create_account(&other(2), user("alice", 0)).unwrap();
    assert_eq!(again.balance, 750);
    assert_eq!(state.total_supply(), 1000);
}

#[test]
fn supply_counts_each_registration_once() {
    let mut state = State::new();
    for tag in 0..5u8 {
        let name = format!("user{}", tag);
        assert!(state.register_account(&other(tag), name).is_ok());
    }
    assert_eq!(state.total_supply(), 5 * GRANT);
    let sum: u64 = (0..5u8).map(|t| state.get_balance(&other(t))).sum();
    assert_eq!(sum, state.total_supply());

    assert!(state.transfer_tokens(&other(0), &other(42), 300).is_ok());
    let sum: u64 = (0..5u8).map(|t| state.get_balance(&other(t))).sum::<u64>()
        + state.get_balance(&other(42));
    assert_eq!(sum, 5000);
    assert_eq!(state.total_supply(), 5000);
}

#[test]
fn transfer_moves_exact_amount() {
    let mut state = State::new();
    state.register_account(&other(1), "bob".to_string()).unwrap();
    assert_eq!(state.get_balance(&other(1)), 1000);
    assert_eq!(state.transfer_tokens(&other(1), &other(2), 500), Ok(()));
    assert_eq!(state.get_balance(&other(1)), 500);
    assert_eq!(state.get_balance(&other(2)), 500);
}

#[test]
fn transfer_beyond_balance_fails_and_changes_nothing() {
    let mut state = State::new();
    state.register_account(&other(1), "carol".to_string()).unwrap();
    assert!(state.transfer_tokens(&other(1), &other(5), 900).is_ok());
    assert_eq!(state.get_balance(&other(1)), 100);
    let r = state.transfer_tokens(&other(1), &other(2), 500);
    assert_eq!(r, Err(TransferError::InsufficientBalance));
    assert_eq!(state.get_balance(&other(1)), 100);
    assert_eq!(state.get_balance(&other(2)), 0);
}

#[test]
fn transfer_from_unknown_identity_fails() {
    let mut state = State::new();
    let r = state.transfer_tokens(&other(7), &other(8), 1);
    assert_eq!(r, Err(TransferError::InsufficientBalance));
    assert_eq!(state.get_balance(&other(8)), 0);
}

#[test]
fn self_transfer_keeps_balance() {
    let mut state = State::new();
    state.register_account(&other(1), "dave".to_string()).unwrap();
    assert_eq!(state.transfer_tokens(&other(1), &other(1), 300), Ok(()));
    assert_eq!(state.get_balance(&other(1)), 1000);
    assert_eq!(state.transfer_tokens(&other(1), &other(1), 1000), Ok(()));
    assert_eq!(state.get_balance(&other(1)), 1000);
    assert_eq!(
        state.transfer_tokens(&other(1), &other(1), 1001),
        Err(TransferError::InsufficientBalance)
    );
}

#[test]
fn zero_transfer_always_succeeds() {
    let mut state = State::new();
    assert_eq!(state.transfer_tokens(&other(1), &other(2), 0), Ok(()));
    assert_eq!(state.get_balance(&other(1)), 0);
    assert_eq!(state.get_balance(&other(2)), 0);
}

#[test]
fn unseen_identity_reads_zero() {
    let state = State::new();
    assert_eq!(state.get_balance(&other(3)), 0);
    let me = state.get_self(&other(3));
    assert_eq!(me.username, "");
    assert_eq!(me.balance, 0);
}

#[test]
fn empty_username_is_refused() {
    let mut state = State::new();
    let r = state.register_account(&other(1), String::new());
    assert_eq!(r.err(), Some(RegistrationError::InvalidUsername));
    assert!(state.create_account(&other(1), user("", 0)).is_none());
    assert_eq!(state.total_supply(), 0);
    assert_eq!(state.get_balance(&other(1)), 0);
}

#[test]
fn second_username_for_same_identity_is_refused() {
    let mut state = State::new();
    state.register_account(&other(1), "erin".to_string()).unwrap();
    let r = state.register_account(&other(1), "erin2".to_string());
    assert_eq!(r.err(), Some(RegistrationError::AlreadyRegistered));
    assert_eq!(state.total_supply(), 1000);
    assert_eq!(state.get_self(&other(1)).username, "erin");
    let taken = state.register_account(&other(9), "erin2".to_string());
    assert!(taken.is_ok());
}

#[test]
fn registration_credits_grant_on_top_of_received_funds() {
    let mut state = State::new();
    state.register_account(&other(1), "fay".to_string()).unwrap();
    assert!(state.transfer_tokens(&other(1), &other(2), 200).is_ok());
    let u = state.register_account(&other(2), "gus".to_string()).unwrap();
    assert_eq!(u.balance, 1200);
    assert_eq!(state.get_self(&other(2)).balance, 1200);
    assert_eq!(state.total_supply(), 2000);
}

#[test]
fn get_self_reads_balance_through_ledger() {
    let mut state = State::new();
    state.register_account(&other(1), "hal".to_string()).unwrap();
    assert!(state.transfer_tokens(&other(1), &other(2), 400).is_ok());
    let me = state.get_self(&other(1));
    assert_eq!(me.username, "hal");
    assert_eq!(me.balance, 600);
    let receiver = state.get_self(&other(2));
    assert_eq!(receiver.username, "");
    assert_eq!(receiver.balance, 0);
    assert_eq!(state.get_balance(&other(2)), 400);
}

#[test]
fn identities_compare_by_bytes() {
    let a = Identity::from_bytes(vec![1, 2, 3]);
    assert!(a.same_as(&Identity::from_bytes(vec![1, 2, 3])));
    assert!(!a.same_as(&Identity::from_bytes(vec![1, 2])));
    assert!(!a.same_as(&Identity::from_bytes(vec![1, 2, 4])));
    assert!(a.duplicate().same_as(&a));
}
