//! Tests for raw record parsing into typed transactions.

use payments_engine::{TransactionRecord, TxKind};

#[test]
fn test_parse_deposit() {
    let record = TransactionRecord {
        tx_type: "deposit".to_string(),
        client: 1,
        tx: 100,
        amount: Some("10.5".to_string()),
    };

    let parsed = record.parse().unwrap();
    assert_eq!(parsed.tx_id, 100);
    assert_eq!(parsed.client, 1);
    match parsed.kind {
        TxKind::Deposit(amt) => assert_eq!(amt.to_text(), "10.5000"),
        _ => panic!("Expected Deposit"),
    }
}

#[test]
fn test_parse_withdrawal() {
    let record = TransactionRecord {
        tx_type: "withdrawal".to_string(),
        client: 2,
        tx: 200,
        amount: Some("5.25".to_string()),
    };

    let parsed = record.parse().unwrap();
    match parsed.kind {
        TxKind::Withdrawal(amt) => assert_eq!(amt.to_text(), "5.2500"),
        _ => panic!("Expected Withdrawal"),
    }
}

#[test]
fn test_parse_dispute() {
    let record = TransactionRecord {
        tx_type: "dispute".to_string(),
        client: 1,
        tx: 100,
        amount: None,
    };

    let parsed = record.parse().unwrap();
    assert!(matches!(parsed.kind, TxKind::Dispute));
}

#[test]
fn test_parse_handles_whitespace() {
    let record = TransactionRecord {
        tx_type: "  deposit  ".to_string(),
        client: 1,
        tx: 100,
        amount: Some("  10.0  ".to_string()),
    };

    let parsed = record.parse().unwrap();
    match parsed.kind {
        TxKind::Deposit(amt) => assert_eq!(amt.to_text(), "10.0000"),
        _ => panic!("Expected Deposit"),
    }
}

#[test]
fn test_parse_rejects_unknown_type() {
    let record = TransactionRecord {
        tx_type: "unknown".to_string(),
        client: 1,
        tx: 100,
        amount: Some("10.0".to_string()),
    };

    assert!(record.parse().is_none());
}

#[test]
fn test_parse_rejects_missing_amount_for_deposit() {
    let record = TransactionRecord {
        tx_type: "deposit".to_string(),
        client: 1,
        tx: 100,
        amount: None,
    };

    assert!(record.parse().is_none());
}

#[test]
fn test_parse_resolve_and_chargeback() {
    let record = TransactionRecord {
        tx_type: "resolve".to_string(),
        client: 3,
        tx: 7,
        amount: None,
    };
    assert!(matches!(record.parse().unwrap().kind, TxKind::Resolve));

    let record = TransactionRecord {
        tx_type: "Chargeback".to_string(),
        client: 3,
        tx: 7,
        amount: Some("".to_string()),
    };
    assert!(matches!(record.parse().unwrap().kind, TxKind::Chargeback));
}

#[test]
fn test_parse_mixed_case_kinds() {
    for (text, want_deposit) in [("DEPOSIT", true), ("Deposit", true), ("dePoSit", true)] {
        let record = TransactionRecord {
            tx_type: text.to_string(),
            client: 1,
            tx: 1,
            amount: Some("1.0".to_string()),
        };
        assert_eq!(matches!(record.parse().unwrap().kind, TxKind::Deposit(_)), want_deposit);
    }
}

#[test]
fn test_parse_rejects_empty_amount_for_withdrawal() {
    let record = TransactionRecord {
        tx_type: "withdrawal".to_string(),
        client: 1,
        tx: 1,
        amount: Some("   ".to_string()),
    };
    assert!(record.parse().is_none());
}
