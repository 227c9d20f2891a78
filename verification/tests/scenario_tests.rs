//! End-to-end scenarios: a full record stream in, the exact snapshot out.

use payments_engine::{PaymentsEngine, TransactionRecord};

fn run(records: &[(&str, u16, u32, Option<&str>)]) -> String {
    let mut engine = PaymentsEngine::new();
    for (kind, client, tx, amount) in records {
        let record = TransactionRecord {
            tx_type: kind.to_string(),
            client: *client,
            tx: *tx,
            amount: amount.map(|s| s.to_string()),
        };
        engine.process_record(&record);
    }
    engine.render_snapshot()
}

#[test]
fn test_scenario_simple_deposits_and_withdrawals() {
    let output = run(&[
        ("deposit", 1, 1, Some("1.0")),
        ("deposit", 2, 2, Some("2.0")),
        ("deposit", 1, 3, Some("2.0")),
        ("withdrawal", 1, 4, Some("1.5")),
        ("withdrawal", 2, 5, Some("3.0")),
    ]);
    assert_eq!(
        output,
        "client,available,held,total,locked\n\
         1,1.5000,0.0000,1.5000,false\n\
         2,2.0000,0.0000,2.0000,false\n"
    );
}

#[test]
fn test_scenario_dispute_chargeback_locks_account() {
    let output = run(&[
        ("deposit", 1, 1, Some("10.0")),
        ("dispute", 1, 1, None),
        ("chargeback", 1, 1, None),
    ]);
    assert_eq!(
        output,
        "client,available,held,total,locked\n\
         1,0.0000,0.0000,0.0000,true\n"
    );
}

#[test]
fn test_scenario_dispute_after_partial_withdrawal() {
    let output = run(&[
        ("deposit", 1, 1, Some("100.0")),
        ("withdrawal", 1, 2, Some("70.0")),
        ("dispute", 1, 1, None),
    ]);
    assert_eq!(
        output,
        "client,available,held,total,locked\n\
         1,-70.0000,100.0000,30.0000,false\n"
    );
}

#[test]
fn test_scenario_redispute_after_resolve_then_chargeback() {
    let output = run(&[
        ("deposit", 1, 1, Some("100.0")),
        ("dispute", 1, 1, None),
        ("resolve", 1, 1, None),
        ("dispute", 1, 1, None),
        ("chargeback", 1, 1, None),
    ]);
    assert_eq!(
        output,
        "client,available,held,total,locked\n\
         1,0.0000,0.0000,0.0000,true\n"
    );
}

#[test]
fn test_scenario_locked_account_rejects_further_activity() {
    let output = run(&[
        ("deposit", 1, 1, Some("10.0")),
        ("dispute", 1, 1, None),
        ("chargeback", 1, 1, None),
        ("deposit", 1, 2, Some("500.0")),
    ]);
    assert_eq!(
        output,
        "client,available,held,total,locked\n\
         1,0.0000,0.0000,0.0000,true\n"
    );
}

#[test]
fn test_scenario_cross_client_dispute_is_ignored() {
    let output = run(&[
        ("deposit", 1, 1, Some("10.0")),
        ("deposit", 2, 2, Some("50.0")),
        ("dispute", 2, 1, None),
    ]);
    assert_eq!(
        output,
        "client,available,held,total,locked\n\
         1,10.0000,0.0000,10.0000,false\n\
         2,50.0000,0.0000,50.0000,false\n"
    );
}

#[test]
fn test_unknown_kind_is_dropped_without_creating_account() {
    let mut engine = PaymentsEngine::new();
    let accepted = engine.process_record(
        &TransactionRecord {
            tx_type: "transfer".to_string(),
            client: 1,
            tx: 1,
            amount: Some("10.0".to_string()),
        },
    );
    assert!(!accepted);
    assert!(engine.get_account(1).is_none());
    assert_eq!(engine.render_snapshot(), "client,available,held,total,locked\n");
}

#[test]
fn test_lifecycle_event_does_not_create_account() {
    let mut engine = PaymentsEngine::new();
    engine.process_record(
        &TransactionRecord { tx_type: "dispute".to_string(), client: 7, tx: 1, amount: None },
    );
    assert!(engine.get_account(7).is_none());
}

#[test]
fn test_malformed_amount_does_not_create_account() {
    let mut engine = PaymentsEngine::new();
    let accepted = engine.process_record(
        &TransactionRecord {
            tx_type: "deposit".to_string(),
            client: 3,
            tx: 1,
            amount: Some("ten".to_string()),
        },
    );
    assert!(!accepted);
    assert!(engine.get_account(3).is_none());
}
