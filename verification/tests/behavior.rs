// Per-event outcomes: every rejection reason on an input that provokes it,
// the documented deposit ordering quirk, and concrete instances of the
// engine's proved laws.

use accounting_engine::account::Account;
use accounting_engine::engine::{AccountingEngine, AccountingResult, Amount, ClientId};
use accounting_engine::errors::AccountingError;
use accounting_engine::ledger::Ledger;
use accounting_engine::transactions::{Event, Transaction};

fn snapshot(res: &Vec<(ClientId, AccountingResult)>, c: ClientId) -> AccountingResult {
    res.iter().find(|(id, _)| *id == c).map(|(_, r)| *r).unwrap()
}

fn deposit(id: u32, client: u16, units: i64) -> Event {
    Event::Deposit(Transaction { id, client, amount: Amount { units }, is_disputed: false })
}

fn withdrawal(id: u32, client: u16, units: i64) -> Event {
    Event::Withdrawal(Transaction { id, client, amount: Amount { units }, is_disputed: false })
}

#[test]
fn duplicate_deposit_rejected() {
    let mut engine = AccountingEngine::new();
    assert_eq!(Ok(()), engine.handle_tx(&deposit(0, 0, 10000)));
    assert_eq!(
        Err(AccountingError::DuplicateTransaction(0)),
        engine.handle_tx(&deposit(0, 0, 20000))
    );
}

#[test]
fn duplicate_withdrawal_rejected() {
    let mut engine = AccountingEngine::new();
    assert_eq!(Ok(()), engine.handle_tx(&deposit(0, 0, 10000)));
    assert_eq!(
        Err(AccountingError::DuplicateTransaction(0)),
        engine.handle_tx(&withdrawal(0, 0, 5000))
    );
}

#[test]
fn insufficient_funds_rejected() {
    let mut engine = AccountingEngine::new();
    assert_eq!(Ok(()), engine.handle_tx(&deposit(0, 0, 10000)));
    assert_eq!(
        Err(AccountingError::InsufficientFunds(0)),
        engine.handle_tx(&withdrawal(1, 0, 10001))
    );
}

#[test]
fn non_positive_deposit_rejected() {
    let mut engine = AccountingEngine::new();
    assert_eq!(Err(AccountingError::InvalidAmount), engine.handle_tx(&deposit(0, 0, 0)));
    assert_eq!(Err(AccountingError::InvalidAmount), engine.handle_tx(&deposit(1, 0, -10000)));
}

#[test]
fn non_positive_withdrawal_rejected() {
    let mut engine = AccountingEngine::new();
    assert_eq!(Ok(()), engine.handle_tx(&deposit(0, 0, 10000)));
    assert_eq!(Err(AccountingError::InvalidAmount), engine.handle_tx(&withdrawal(1, 0, 0)));
}

// A rejected non-positive deposit still left its ledger entry behind: the
// duplicate check comes first and the insertion precedes the amount check,
// so reusing its id now reports a duplicate, not an invalid amount.
#[test]
fn rejected_deposit_still_occupies_its_id() {
    let mut engine = AccountingEngine::new();
    assert_eq!(Err(AccountingError::InvalidAmount), engine.handle_tx(&deposit(7, 0, 0)));
    assert_eq!(
        Err(AccountingError::DuplicateTransaction(7)),
        engine.handle_tx(&deposit(7, 0, 10000))
    );
}

#[test]
fn dispute_unknown_id_rejected() {
    let mut engine = AccountingEngine::new();
    assert_eq!(
        Err(AccountingError::TransactionNotFound(3)),
        engine.handle_tx(&Event::Dispute { client: 0, tx_id: 3 })
    );
}

#[test]
fn second_dispute_rejected() {
    let mut engine = AccountingEngine::new();
    assert_eq!(Ok(()), engine.handle_tx(&deposit(0, 0, 10000)));
    assert_eq!(Ok(()), engine.handle_tx(&Event::Dispute { client: 0, tx_id: 0 }));
    assert_eq!(
        Err(AccountingError::TransactionAlreadyDisputed(0)),
        engine.handle_tx(&Event::Dispute { client: 0, tx_id: 0 })
    );
}

#[test]
fn resolve_undisputed_rejected() {
    let mut engine = AccountingEngine::new();
    assert_eq!(Ok(()), engine.handle_tx(&deposit(0, 0, 10000)));
    assert_eq!(
        Err(AccountingError::TransactionNotDisputed(0)),
        engine.handle_tx(&Event::Resolve { client: 0, tx_id: 0 })
    );
    assert_eq!(
        Err(AccountingError::TransactionNotDisputed(0)),
        engine.handle_tx(&Event::Chargeback { client: 0, tx_id: 0 })
    );
}

#[test]
fn foreign_transaction_dispute_rejected() {
    let mut engine = AccountingEngine::new();
    assert_eq!(Ok(()), engine.handle_tx(&deposit(0, 0, 10000)));
    assert_eq!(
        Err(AccountingError::TransactionClientMismatch { tx_id: 0, client: 1 }),
        engine.handle_tx(&Event::Dispute { client: 1, tx_id: 0 })
    );
}

#[test]
fn frozen_account_rejects_everything() {
    let mut engine = AccountingEngine::new();
    assert_eq!(Ok(()), engine.handle_tx(&deposit(0, 0, 10000)));
    assert_eq!(Ok(()), engine.handle_tx(&Event::Dispute { client: 0, tx_id: 0 }));
    assert_eq!(Ok(()), engine.handle_tx(&Event::Chargeback { client: 0, tx_id: 0 }));
    assert_eq!(Err(AccountingError::AccountFrozen(0)), engine.handle_tx(&deposit(1, 0, 10000)));
    assert_eq!(
        Err(AccountingError::AccountFrozen(0)),
        engine.handle_tx(&Event::Dispute { client: 0, tx_id: 0 })
    );
    let result = engine.process_txs(&vec![withdrawal(2, 0, 10000)]);
    assert_eq!(
        AccountingResult { available: 0, held: 0, total: 0, locked: true },
        snapshot(&result, 0)
    );
}

// A deposit that arrives pre-disputed credits held; resolving it releases
// the funds into available.
#[test]
fn pre_held_deposit_resolves_into_available() {
    let engine = AccountingEngine::new();
    let events = vec![
        Event::Deposit(Transaction {
            id: 0,
            client: 0,
            amount: Amount { units: 10000 },
            is_disputed: true,
        }),
        Event::Resolve { client: 0, tx_id: 0 },
    ];
    let result = engine.process_txs(&events);
    assert_eq!(
        AccountingResult { available: 10000, held: 0, total: 10000, locked: false },
        snapshot(&result, 0)
    );
}

// Conservation on a plain transfer stream: total is deposits minus
// withdrawals, and nothing is held.
#[test]
fn totals_conserved_over_transfers() {
    let engine = AccountingEngine::new();
    let events = vec![
        deposit(0, 0, 30000),
        deposit(1, 0, 25000),
        withdrawal(2, 0, 14000),
        deposit(3, 0, 1),
        withdrawal(4, 0, 40000),
    ];
    let result = engine.process_txs(&events);
    assert_eq!(
        AccountingResult { available: 1001, held: 0, total: 1001, locked: false },
        snapshot(&result, 0)
    );
}

// Charging back a disputed withdrawal ends with more available than
// resolving the same dispute: 10000 more, the withdrawal's own magnitude.
#[test]
fn chargeback_of_withdrawal_beats_resolve() {
    let prefix = vec![
        deposit(0, 0, 10000),
        withdrawal(1, 0, 10000),
        Event::Dispute { client: 0, tx_id: 1 },
    ];

    let mut resolved = prefix.clone();
    resolved.push(Event::Resolve { client: 0, tx_id: 1 });
    let r = AccountingEngine::new().process_txs(&resolved);
    assert_eq!(AccountingResult { available: 0, held: 0, total: 0, locked: false }, snapshot(&r, 0));

    let mut charged = prefix.clone();
    charged.push(Event::Chargeback { client: 0, tx_id: 1 });
    let c = AccountingEngine::new().process_txs(&charged);
    assert_eq!(AccountingResult { available: 10000, held: 0, total: 10000, locked: true }, snapshot(&c, 0));

    assert_eq!(snapshot(&c, 0).available - snapshot(&r, 0).available, 10000);
}

// Routing independence: interleaving two clients' streams arbitrarily gives
// each client the same snapshot as running its own stream alone.
#[test]
fn interleaving_does_not_change_per_client_results() {
    let a_events = vec![
        deposit(0, 0, 10000),
        withdrawal(1, 0, 4000),
        Event::Dispute { client: 0, tx_id: 0 },
    ];
    let b_events = vec![
        deposit(10, 1, 50000),
        Event::Dispute { client: 1, tx_id: 10 },
        Event::Chargeback { client: 1, tx_id: 10 },
    ];
    let interleaved = vec![
        a_events[0], b_events[0], b_events[1], a_events[1], a_events[2], b_events[2],
    ];

    let full = AccountingEngine::new().process_txs(&interleaved);
    let a_alone = AccountingEngine::new().process_txs(&a_events);
    let b_alone = AccountingEngine::new().process_txs(&b_events);

    assert_eq!(snapshot(&a_alone, 0), snapshot(&full, 0));
    assert_eq!(snapshot(&b_alone, 1), snapshot(&full, 1));
}

// One account unit draining its private queue against a shared ledger.
#[test]
fn account_unit_drains_its_queue() {
    let mut ledger = Ledger::new();
    let account = Account::new(0);
    let events = vec![
        deposit(0, 0, 10000),
        withdrawal(1, 0, 4000),
        Event::Dispute { client: 0, tx_id: 0 },
    ];
    let account = account.process_txs(&mut ledger, &events);
    assert_eq!(0, account.id);
    assert_eq!(-4000, account.available);
    assert_eq!(10000, account.held);
    assert!(!account.locked);
    assert!(ledger.contains(0));
    assert!(ledger.contains(1));
    assert_eq!(-4000, ledger.get(1).unwrap().amount.units);
}

// The output snapshot is ordered by ascending client id, whatever the
// arrival order.
#[test]
fn output_sorted_by_client() {
    let engine = AccountingEngine::new();
    let events = vec![deposit(0, 9, 10000), deposit(1, 2, 10000), deposit(2, 5, 10000)];
    let result = engine.process_txs(&events);
    let ids: Vec<u16> = result.iter().map(|(id, _)| *id).collect();
    assert_eq!(vec![2u16, 5, 9], ids);
}
