// The engine driven end to end: streams of events in, final snapshots out.
// Amounts are in ten-thousandths: 10000 units stand for the decimal 1.

use accounting_engine::engine::{AccountingEngine, AccountingResult, Amount, ClientId};
use accounting_engine::transactions::{Event, Transaction};

fn snapshot(res: &Vec<(ClientId, AccountingResult)>, c: ClientId) -> AccountingResult {
    res.iter().find(|(id, _)| *id == c).map(|(_, r)| *r).unwrap()
}

fn deposit(id: u32, client: u16, units: i64, pre_held: bool) -> Event {
    Event::Deposit(Transaction { id, client, amount: Amount { units }, is_disputed: pre_held })
}

fn withdrawal(id: u32, client: u16, units: i64) -> Event {
    Event::Withdrawal(Transaction { id, client, amount: Amount { units }, is_disputed: false })
}

#[test]
fn one_client_deposits() {
    let engine = AccountingEngine::new();
    let events = vec![deposit(0, 0, 10000, false)];
    let result = engine.process_txs(&events);
    assert_eq!(
        AccountingResult { available: 10000, held: 0, total: 10000, locked: false },
        snapshot(&result, 0)
    );
}

#[test]
fn two_clients_deposit() {
    let engine = AccountingEngine::new();
    let events = vec![deposit(0, 0, 10000, false), deposit(1, 1, 20000, false)];
    let result = engine.process_txs(&events);
    assert_eq!(
        AccountingResult { available: 10000, held: 0, total: 10000, locked: false },
        snapshot(&result, 0)
    );
    assert_eq!(
        AccountingResult { available: 20000, held: 0, total: 20000, locked: false },
        snapshot(&result, 1)
    );
}

#[test]
fn one_client_deposits_and_withdrawals() {
    let engine = AccountingEngine::new();
    let events = vec![deposit(0, 0, 10000, false), withdrawal(1, 0, 10000)];
    let result = engine.process_txs(&events);
    assert_eq!(
        AccountingResult { available: 0, held: 0, total: 0, locked: false },
        snapshot(&result, 0)
    );
}

#[test]
fn two_clients_deposit_and_withdrawal() {
    let engine = AccountingEngine::new();
    let events = vec![
        deposit(0, 0, 10000, false),
        withdrawal(1, 0, 10000),
        deposit(2, 1, 20000, false),
        withdrawal(3, 1, 10000),
    ];
    let result = engine.process_txs(&events);
    assert_eq!(
        AccountingResult { available: 0, held: 0, total: 0, locked: false },
        snapshot(&result, 0)
    );
    assert_eq!(
        AccountingResult { available: 10000, held: 0, total: 10000, locked: false },
        snapshot(&result, 1)
    );
}

#[test]
fn one_client_charges_back() {
    let engine = AccountingEngine::new();
    let events = vec![
        deposit(0, 0, 10000, false),
        Event::Dispute { client: 0, tx_id: 0 },
        Event::Chargeback { client: 0, tx_id: 0 },
    ];
    let result = engine.process_txs(&events);
    assert_eq!(
        AccountingResult { available: 0, held: 0, total: 0, locked: true },
        snapshot(&result, 0)
    );
}

#[test]
fn one_client_resolves_dispute() {
    let engine = AccountingEngine::new();
    let events = vec![
        deposit(0, 0, 10000, false),
        Event::Dispute { client: 0, tx_id: 0 },
        Event::Resolve { client: 0, tx_id: 0 },
    ];
    let result = engine.process_txs(&events);
    assert_eq!(
        AccountingResult { available: 10000, held: 0, total: 10000, locked: false },
        snapshot(&result, 0)
    );
}

#[test]
fn dispute_non_existent_tx() {
    let engine = AccountingEngine::new();
    let events = vec![deposit(0, 0, 10000, false), Event::Dispute { client: 0, tx_id: 1 }];
    let result = engine.process_txs(&events);
    assert_eq!(
        AccountingResult { available: 10000, held: 0, total: 10000, locked: false },
        snapshot(&result, 0)
    );
}

#[test]
fn resolve_non_locket_tx() {
    let engine = AccountingEngine::new();
    let events = vec![deposit(0, 0, 10000, false), Event::Resolve { client: 0, tx_id: 0 }];
    let result = engine.process_txs(&events);
    assert_eq!(
        AccountingResult { available: 10000, held: 0, total: 10000, locked: false },
        snapshot(&result, 0)
    );
}

#[test]
fn dispute_locked_tx() {
    let engine = AccountingEngine::new();
    let events = vec![
        deposit(0, 0, 10000, false),
        Event::Dispute { client: 0, tx_id: 0 },
        Event::Dispute { client: 0, tx_id: 0 },
    ];
    let result = engine.process_txs(&events);
    assert_eq!(
        AccountingResult { available: 0, held: 10000, total: 10000, locked: false },
        snapshot(&result, 0)
    );
}

#[test]
fn deposit_locked_tx() {
    let engine = AccountingEngine::new();
    let events = vec![deposit(0, 0, 10000, true)];
    let result = engine.process_txs(&events);
    assert_eq!(
        AccountingResult { available: 0, held: 10000, total: 10000, locked: false },
        snapshot(&result, 0)
    );
}

#[test]
fn withdraw_more_than_deposited() {
    let engine = AccountingEngine::new();
    let events = vec![deposit(0, 0, 10000, false), withdrawal(1, 0, 20000)];
    let result = engine.process_txs(&events);
    assert_eq!(
        AccountingResult { available: 10000, held: 0, total: 10000, locked: false },
        snapshot(&result, 0)
    );
}

#[test]
fn charge_back_on_zero_balance() {
    let engine = AccountingEngine::new();
    let events = vec![
        deposit(0, 0, 10000, false),
        withdrawal(1, 0, 10000),
        Event::Dispute { client: 0, tx_id: 0 },
        Event::Chargeback { client: 0, tx_id: 0 },
    ];
    let result = engine.process_txs(&events);
    assert_eq!(
        AccountingResult { available: -10000, held: 0, total: -10000, locked: true },
        snapshot(&result, 0)
    );
}

#[test]
fn charge_back_a_withdrawal() {
    let engine = AccountingEngine::new();
    let events = vec![
        deposit(0, 0, 10000, false),
        withdrawal(1, 0, 10000),
        Event::Dispute { client: 0, tx_id: 1 },
        Event::Chargeback { client: 0, tx_id: 1 },
    ];
    let result = engine.process_txs(&events);
    assert_eq!(
        AccountingResult { available: 10000, held: 0, total: 10000, locked: true },
        snapshot(&result, 0)
    );
}

#[test]
fn deposits_and_dispute() {
    let engine = AccountingEngine::new();
    let events = vec![
        deposit(0, 0, 11000, false),
        deposit(1, 0, 2004567, false),
        Event::Dispute { client: 0, tx_id: 0 },
    ];
    let result = engine.process_txs(&events);
    assert_eq!(
        AccountingResult { available: 2004567, held: 11000, total: 2015567, locked: false },
        snapshot(&result, 0)
    );
}
