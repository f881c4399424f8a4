//! The mathematical model of the engine: what one event does to an account
//! and to the ledger, and what a whole stream does to the engine. Every
//! executable contract in this crate is stated against these functions.

use vstd::prelude::*;

use crate::account::Account;
use crate::engine::{ClientId, TxId};
use crate::errors::AccountingError;
use crate::transactions::{Event, Transaction};

verus! {

/// The mathematical shadow of one account: balances as unbounded integers,
/// in ten-thousandths like `Amount`.
#[verifier::ext_equal]
pub ghost struct AccountModel {
    pub available: int,
    pub held: int,
    pub locked: bool,
}

impl AccountModel {
    /// A freshly created account: zero balances, unlocked.
    pub open spec fn initial() -> AccountModel {
        AccountModel { available: 0, held: 0, locked: false }
    }
}

impl View for Account {
    type V = AccountModel;

    open spec fn view(&self) -> AccountModel {
        AccountModel {
            available: self.available as int,
            held: self.held as int,
            locked: self.locked,
        }
    }
}

/// The mathematical shadow of the whole engine: every account created so
/// far, keyed by client, and the shared ledger keyed by transaction id.
#[verifier::ext_equal]
pub ghost struct EngineModel {
    pub accounts: Map<ClientId, AccountModel>,
    pub ledger: Map<TxId, Transaction>,
}

impl EngineModel {
    /// The engine before any event: no accounts, an empty ledger.
    pub open spec fn initial() -> EngineModel {
        EngineModel { accounts: Map::empty(), ledger: Map::empty() }
    }
}

/// What one event does at one account: the account and ledger afterwards,
/// and `None` on acceptance or the exact rejection.
#[verifier::ext_equal]
pub ghost struct StepOutcome {
    pub account: AccountModel,
    pub ledger: Map<TxId, Transaction>,
    pub result: Option<AccountingError>,
}

/// What one event does to the whole engine.
#[verifier::ext_equal]
pub ghost struct EngineStep {
    pub state: EngineModel,
    pub result: Option<AccountingError>,
}

/// Account and ledger after a per-account stream, rejections dropped.
#[verifier::ext_equal]
pub ghost struct AccountLedger {
    pub account: AccountModel,
    pub ledger: Map<TxId, Transaction>,
}

/// The client an event is routed by, extracted uniformly from every variant.
pub open spec fn client_of(e: Event) -> ClientId {
    match e {
        Event::Deposit(t) => t.client,
        Event::Withdrawal(t) => t.client,
        Event::Dispute { client, .. } => client,
        Event::Resolve { client, .. } => client,
        Event::Chargeback { client, .. } => client,
    }
}

/// An unchanged account and ledger together with a rejection.
pub open spec fn rejected(
    a: AccountModel,
    ledger: Map<TxId, Transaction>,
    err: AccountingError,
) -> StepOutcome {
    StepOutcome { account: a, ledger, result: Some(err) }
}

/// A deposit: insert the transaction under its id, then credit the amount —
/// to `held` if the transaction arrives already flagged disputed, else to
/// `available`. A duplicate id is rejected before anything happens; the
/// amount is checked only after the insertion, so a rejected non-positive
/// deposit leaves its entry in the ledger. That ordering — duplicate first,
/// insertion before the amount check — is deliberate and observable.
pub open spec fn deposit_step(
    a: AccountModel,
    ledger: Map<TxId, Transaction>,
    t: Transaction,
) -> StepOutcome {
    if ledger.contains_key(t.id) {
        rejected(a, ledger, AccountingError::DuplicateTransaction(t.id))
    } else {
        let inserted = ledger.insert(t.id, t);
        if t.amount.units <= 0 {
            StepOutcome { account: a, ledger: inserted, result: Some(AccountingError::InvalidAmount) }
        } else if t.is_disputed {
            StepOutcome {
                account: AccountModel { held: a.held + t.amount.units, ..a },
                ledger: inserted,
                result: None,
            }
        } else {
            StepOutcome {
                account: AccountModel { available: a.available + t.amount.units, ..a },
                ledger: inserted,
                result: None,
            }
        }
    }
}

/// A withdrawal: funds are checked first, then the amount, then the id; the
/// accepted transaction is stored with its amount negated, and `available`
/// is adjusted by that stored (negative) amount.
pub open spec fn withdrawal_step(
    a: AccountModel,
    ledger: Map<TxId, Transaction>,
    id: ClientId,
    t: Transaction,
) -> StepOutcome {
    if a.available < t.amount.units {
        rejected(a, ledger, AccountingError::InsufficientFunds(id))
    } else if t.amount.units <= 0 {
        rejected(a, ledger, AccountingError::InvalidAmount)
    } else if ledger.contains_key(t.id) {
        rejected(a, ledger, AccountingError::DuplicateTransaction(t.id))
    } else {
        let stored = Transaction {
            amount: crate::engine::Amount { units: (-t.amount.units) as i64 },
            ..t
        };
        StepOutcome {
            account: AccountModel { available: a.available - t.amount.units, ..a },
            ledger: ledger.insert(t.id, stored),
            result: None,
        }
    }
}

/// A dispute: mark the transaction disputed and move its stored amount from
/// `available` to `held`. Because the stored amount is signed, this reverses
/// a withdrawal's debit as well as a deposit's credit.
pub open spec fn dispute_step(
    a: AccountModel,
    ledger: Map<TxId, Transaction>,
    id: ClientId,
    tx_id: TxId,
) -> StepOutcome {
    if !ledger.contains_key(tx_id) {
        rejected(a, ledger, AccountingError::TransactionNotFound(tx_id))
    } else {
        let t = ledger[tx_id];
        if t.is_disputed {
            rejected(a, ledger, AccountingError::TransactionAlreadyDisputed(tx_id))
        } else if t.client != id {
            rejected(a, ledger, AccountingError::TransactionClientMismatch { tx_id, client: id })
        } else {
            StepOutcome {
                account: AccountModel {
                    available: a.available - t.amount.units,
                    held: a.held + t.amount.units,
                    ..a
                },
                ledger: ledger.insert(tx_id, Transaction { is_disputed: true, ..t }),
                result: None,
            }
        }
    }
}

/// A resolve: the exact inverse of a dispute — clear the flag and move the
/// stored amount back from `held` to `available`.
pub open spec fn resolve_step(
    a: AccountModel,
    ledger: Map<TxId, Transaction>,
    id: ClientId,
    tx_id: TxId,
) -> StepOutcome {
    if !ledger.contains_key(tx_id) {
        rejected(a, ledger, AccountingError::TransactionNotFound(tx_id))
    } else {
        let t = ledger[tx_id];
        if !t.is_disputed {
            rejected(a, ledger, AccountingError::TransactionNotDisputed(tx_id))
        } else if t.client != id {
            rejected(a, ledger, AccountingError::TransactionClientMismatch { tx_id, client: id })
        } else {
            StepOutcome {
                account: AccountModel {
                    available: a.available + t.amount.units,
                    held: a.held - t.amount.units,
                    ..a
                },
                ledger: ledger.insert(tx_id, Transaction { is_disputed: false, ..t }),
                result: None,
            }
        }
    }
}

/// A chargeback: drop the held amount, freeze the account for good, and
/// consume the ledger entry — a charged-back transaction cannot be disputed
/// again.
pub open spec fn chargeback_step(
    a: AccountModel,
    ledger: Map<TxId, Transaction>,
    id: ClientId,
    tx_id: TxId,
) -> StepOutcome {
    if !ledger.contains_key(tx_id) {
        rejected(a, ledger, AccountingError::TransactionNotFound(tx_id))
    } else {
        let t = ledger[tx_id];
        if !t.is_disputed {
            rejected(a, ledger, AccountingError::TransactionNotDisputed(tx_id))
        } else if t.client != id {
            rejected(a, ledger, AccountingError::TransactionClientMismatch { tx_id, client: id })
        } else {
            StepOutcome {
                account: AccountModel { held: a.held - t.amount.units, locked: true, ..a },
                ledger: ledger.remove(tx_id),
                result: None,
            }
        }
    }
}

/// One event at one account. A frozen account rejects everything first;
/// otherwise the variant decides.
pub open spec fn account_step(
    a: AccountModel,
    ledger: Map<TxId, Transaction>,
    id: ClientId,
    e: Event,
) -> StepOutcome {
    if a.locked {
        rejected(a, ledger, AccountingError::AccountFrozen(id))
    } else {
        match e {
            Event::Deposit(t) => deposit_step(a, ledger, t),
            Event::Withdrawal(t) => withdrawal_step(a, ledger, id, t),
            Event::Dispute { tx_id, .. } => dispute_step(a, ledger, id, tx_id),
            Event::Resolve { tx_id, .. } => resolve_step(a, ledger, id, tx_id),
            Event::Chargeback { tx_id, .. } => chargeback_step(a, ledger, id, tx_id),
        }
    }
}

/// The account an event lands on: the existing one, or a fresh one created
/// on first sight of the client — creation happens on routing, whether or
/// not the event itself is then accepted.
pub open spec fn account_or_new(s: EngineModel, c: ClientId) -> AccountModel {
    if s.accounts.contains_key(c) {
        s.accounts[c]
    } else {
        AccountModel::initial()
    }
}

/// One event at the whole engine: route by client, create the account on
/// first sight, and apply the per-account step.
pub open spec fn step(s: EngineModel, e: Event) -> EngineStep {
    let c = client_of(e);
    let o = account_step(account_or_new(s, c), s.ledger, c, e);
    EngineStep {
        state: EngineModel { accounts: s.accounts.insert(c, o.account), ledger: o.ledger },
        result: o.result,
    }
}

/// A whole stream at the engine, in arrival order, rejections dropped.
pub open spec fn run(s: EngineModel, es: Seq<Event>) -> EngineModel
    decreases es.len(),
{
    if es.len() == 0 {
        s
    } else {
        run(step(s, es[0]).state, es.drop_first())
    }
}

/// A whole stream at one account, in arrival order, rejections dropped.
pub open spec fn account_run(
    a: AccountModel,
    ledger: Map<TxId, Transaction>,
    id: ClientId,
    es: Seq<Event>,
) -> AccountLedger
    decreases es.len(),
{
    if es.len() == 0 {
        AccountLedger { account: a, ledger }
    } else {
        let o = account_step(a, ledger, id, es[0]);
        account_run(o.account, o.ledger, id, es.drop_first())
    }
}

/// Whether an integer is representable in the balance fields.
pub open spec fn i128_fits(x: int) -> bool {
    i128::MIN <= x <= i128::MAX
}

/// The one machine limit on a single step: the balances it produces must be
/// representable. Every step changes each balance by at most one transaction
/// amount, so this is the only arithmetic a step performs.
pub open spec fn account_step_fits(
    a: AccountModel,
    ledger: Map<TxId, Transaction>,
    id: ClientId,
    e: Event,
) -> bool {
    let o = account_step(a, ledger, id, e);
    i128_fits(o.account.available) && i128_fits(o.account.held)
}

/// The machine limit on a whole per-account stream.
pub open spec fn account_run_fits(
    a: AccountModel,
    ledger: Map<TxId, Transaction>,
    id: ClientId,
    es: Seq<Event>,
) -> bool
    decreases es.len(),
{
    es.len() == 0 || {
        let o = account_step(a, ledger, id, es[0]);
        account_step_fits(a, ledger, id, es[0]) && account_run_fits(
            o.account,
            o.ledger,
            id,
            es.drop_first(),
        )
    }
}

/// The machine limit on a single engine step.
pub open spec fn step_fits(s: EngineModel, e: Event) -> bool {
    account_step_fits(account_or_new(s, client_of(e)), s.ledger, client_of(e), e)
}

/// The machine limit on a whole stream at the engine.
pub open spec fn run_fits(s: EngineModel, es: Seq<Event>) -> bool
    decreases es.len(),
{
    es.len() == 0 || (step_fits(s, es[0]) && run_fits(step(s, es[0]).state, es.drop_first()))
}

/// Whether every account's derived total is representable.
pub open spec fn totals_fit(s: EngineModel) -> bool {
    forall|c: ClientId| #[trigger]
        s.accounts.dom().contains(c) ==> i128_fits(s.accounts[c].available + s.accounts[c].held)
}

/// Whether an executable per-event result reports exactly the modelled one.
pub open spec fn result_matches(
    r: Result<(), AccountingError>,
    o: Option<AccountingError>,
) -> bool {
    match r {
        Ok(u) => o is None,
        Err(err) => o == Some(err),
    }
}

} // verus!
