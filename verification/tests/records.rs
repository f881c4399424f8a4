// The input-record table: which raw records become events, and which are
// dropped for a wrong optional-amount presence or an unknown type tag.

use accounting_engine::engine::Amount;
use accounting_engine::records::{convert_input, Input};
use accounting_engine::transactions::{Event, Transaction};

fn record(tx_type: &str, client: u16, tx: u32, amount: Option<i64>) -> Input {
    Input {
        tx_type: tx_type.to_string(),
        client,
        tx,
        amount: amount.map(|units| Amount { units }),
    }
}

#[test]
fn deposit_record_becomes_deposit() {
    assert_eq!(
        Some(Event::Deposit(Transaction {
            id: 5,
            client: 2,
            amount: Amount { units: 15000 },
            is_disputed: false,
        })),
        convert_input(record("deposit", 2, 5, Some(15000)))
    );
}

#[test]
fn withdrawal_record_becomes_withdrawal() {
    assert_eq!(
        Some(Event::Withdrawal(Transaction {
            id: 6,
            client: 3,
            amount: Amount { units: 25000 },
            is_disputed: false,
        })),
        convert_input(record("withdrawal", 3, 6, Some(25000)))
    );
}

#[test]
fn lifecycle_records_become_events() {
    assert_eq!(
        Some(Event::Dispute { client: 1, tx_id: 7 }),
        convert_input(record("dispute", 1, 7, None))
    );
    assert_eq!(
        Some(Event::Resolve { client: 1, tx_id: 7 }),
        convert_input(record("resolve", 1, 7, None))
    );
    assert_eq!(
        Some(Event::Chargeback { client: 1, tx_id: 7 }),
        convert_input(record("chargeback", 1, 7, None))
    );
}

#[test]
fn transfers_without_amount_are_dropped() {
    assert_eq!(None, convert_input(record("deposit", 1, 7, None)));
    assert_eq!(None, convert_input(record("withdrawal", 1, 7, None)));
}

#[test]
fn lifecycle_records_with_amount_are_dropped() {
    assert_eq!(None, convert_input(record("dispute", 1, 7, Some(10000))));
    assert_eq!(None, convert_input(record("resolve", 1, 7, Some(10000))));
    assert_eq!(None, convert_input(record("chargeback", 1, 7, Some(10000))));
}

#[test]
fn unknown_types_are_dropped() {
    assert_eq!(None, convert_input(record("transfer", 1, 7, Some(10000))));
    assert_eq!(None, convert_input(record("", 1, 7, None)));
    assert_eq!(None, convert_input(record("Deposit", 1, 7, Some(10000))));
}
