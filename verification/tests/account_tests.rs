//! Tests for the client account operations and the balance invariant.

use payments_engine::{ClientAccount, Decimal4};

fn dec(s: &str) -> Decimal4 {
    Decimal4::parse_str(s).unwrap()
}

#[test]
fn test_new_account_has_zero_balances() {
    let account = ClientAccount::new(1);
    assert_eq!(account.client, 1);
    assert_eq!(account.available, Decimal4::zero());
    assert_eq!(account.held, Decimal4::zero());
    assert_eq!(account.total, Decimal4::zero());
    assert!(!account.locked);
}

#[test]
fn test_deposit_increases_available_and_total() {
    let mut account = ClientAccount::new(1);
    assert!(account.deposit(dec("10.0")));

    assert_eq!(account.available.to_text(), "10.0000");
    assert_eq!(account.held.to_text(), "0.0000");
    assert_eq!(account.total.to_text(), "10.0000");
    assert!(account.check_invariant());
}

#[test]
fn test_withdrawal_decreases_available_and_total() {
    let mut account = ClientAccount::new(1);
    account.deposit(dec("10.0"));
    assert!(account.withdraw(dec("3.5")));

    assert_eq!(account.available.to_text(), "6.5000");
    assert_eq!(account.total.to_text(), "6.5000");
    assert!(account.check_invariant());
}

#[test]
fn test_withdrawal_fails_with_insufficient_funds() {
    let mut account = ClientAccount::new(1);
    account.deposit(dec("10.0"));
    assert!(!account.withdraw(dec("15.0")));

    assert_eq!(account.available.to_text(), "10.0000");
    assert_eq!(account.total.to_text(), "10.0000");
}

#[test]
fn test_hold_and_release_cycle() {
    let mut account = ClientAccount::new(1);
    account.deposit(dec("10.0"));

    assert!(account.hold(dec("4.0")));
    assert_eq!(account.available.to_text(), "6.0000");
    assert_eq!(account.held.to_text(), "4.0000");
    assert_eq!(account.total.to_text(), "10.0000");
    assert!(account.check_invariant());

    assert!(account.release(dec("4.0")));
    assert_eq!(account.available.to_text(), "10.0000");
    assert_eq!(account.held.to_text(), "0.0000");
    assert_eq!(account.total.to_text(), "10.0000");
    assert!(account.check_invariant());
}

#[test]
fn test_chargeback_removes_funds_and_locks() {
    let mut account = ClientAccount::new(1);
    account.deposit(dec("10.0"));
    account.hold(dec("4.0"));

    assert!(account.chargeback(dec("4.0")));
    assert_eq!(account.available.to_text(), "6.0000");
    assert_eq!(account.held.to_text(), "0.0000");
    assert_eq!(account.total.to_text(), "6.0000");
    assert!(account.locked);
    assert!(account.check_invariant());
}

#[test]
fn test_locked_account_rejects_all_operations() {
    let mut account = ClientAccount::new(1);
    account.deposit(dec("10.0"));
    account.hold(dec("5.0"));
    account.chargeback(dec("5.0"));

    assert!(account.locked);

    assert!(!account.deposit(dec("1.0")));
    assert!(!account.withdraw(dec("1.0")));
    assert!(!account.hold(dec("1.0")));
    assert!(!account.release(dec("1.0")));
    assert!(!account.chargeback(dec("1.0")));

    assert_eq!(account.available.to_text(), "5.0000");
    assert_eq!(account.total.to_text(), "5.0000");
}

#[test]
fn test_hold_can_drive_available_negative() {
    let mut account = ClientAccount::new(9);
    account.deposit(dec("100.0"));
    account.withdraw(dec("70.0"));
    assert!(account.hold(dec("100.0")));
    assert_eq!(account.available.to_text(), "-70.0000");
    assert_eq!(account.held.to_text(), "100.0000");
    assert_eq!(account.total.to_text(), "30.0000");
    assert!(account.check_invariant());
}
