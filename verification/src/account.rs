//! One client's processing unit: its balances, its lock state, and the
//! per-event state machine that consumes the client's stream in arrival
//! order, mutating only this account and its own ledger entries.

use vstd::prelude::*;

use crate::engine::{Amount, ClientId};
use crate::errors::AccountingError;
use crate::ledger::Ledger;
use crate::model::{
    account_run, account_run_fits, account_step, account_step_fits, result_matches, AccountLedger,
};
use crate::transactions::{Event, Transaction};

verus! {

/// One client's balances and lock state. Created with zero balances and
/// unlocked on the first event naming the client; mutated only by its own
/// processing unit. `total` is always `available + held`, derived, never
/// stored. Once `locked` is true it stays true for the rest of the run.
///
/// Balances count ten-thousandths, like `Amount`, but are kept wider than a
/// single transaction amount so that astronomically many events would be
/// needed before a stream of i64-ranged amounts could overflow them.
#[derive(Clone, Copy, Debug)]
pub struct Account {
    pub id: ClientId,
    pub available: i128,
    pub held: i128,
    pub locked: bool,
}

impl Account {
    /// A fresh account: zero balances, unlocked.
    pub fn new(id: ClientId) -> (a: Account)
        ensures
            a.id == id,
            a@ == crate::model::AccountModel::initial(),
    {
        Account { id, available: 0, held: 0, locked: false }
    }

    /// Apply one event to this account and the shared ledger. The returned
    /// value reports acceptance or the exact rejection; a rejected event
    /// leaves account and ledger unchanged, except for the documented
    /// deposit ordering: a non-positive deposit under a fresh id is rejected
    /// only after its entry went in.
    pub fn handle_tx(&mut self, ledger: &mut Ledger, e: &Event) -> (r: Result<
        (),
        AccountingError,
    >)
        requires
            old(ledger).wf(),
            account_step_fits(old(self)@, old(ledger)@, old(self).id, *e),
        ensures
            final(ledger).wf(),
            final(self).id == old(self).id,
            ({
                let o = account_step(old(self)@, old(ledger)@, old(self).id, *e);
                &&& final(self)@ == o.account
                &&& final(ledger)@ == o.ledger
                &&& result_matches(r, o.result)
            }),
    {
        if self.locked {
            return Err(AccountingError::AccountFrozen(self.id));
        }
        match e {
            Event::Deposit(t) => {
                if !ledger.insert(*t) {
                    return Err(AccountingError::DuplicateTransaction(t.id));
                }
                if t.amount.units <= 0 {
                    return Err(AccountingError::InvalidAmount);
                }
                if t.is_disputed {
                    self.held = self.held + t.amount.units as i128;
                } else {
                    self.available = self.available + t.amount.units as i128;
                }
                Ok(())
            },
            Event::Withdrawal(t) => {
                if self.available < t.amount.units as i128 {
                    return Err(AccountingError::InsufficientFunds(self.id));
                }
                if t.amount.units <= 0 {
                    return Err(AccountingError::InvalidAmount);
                }
                let stored = Transaction {
                    id: t.id,
                    client: t.client,
                    amount: Amount { units: -t.amount.units },
                    is_disputed: t.is_disputed,
                };
                if !ledger.insert(stored) {
                    return Err(AccountingError::DuplicateTransaction(t.id));
                }
                self.available = self.available + stored.amount.units as i128;
                Ok(())
            },
            Event::Dispute { tx_id, .. } => {
                match ledger.get(*tx_id) {
                    None => Err(AccountingError::TransactionNotFound(*tx_id)),
                    Some(t) => {
                        if t.is_disputed {
                            return Err(AccountingError::TransactionAlreadyDisputed(*tx_id));
                        }
                        if t.client != self.id {
                            return Err(
                                AccountingError::TransactionClientMismatch {
                                    tx_id: *tx_id,
                                    client: self.id,
                                },
                            );
                        }
                        ledger.set_disputed(*tx_id, true);
                        self.available = self.available - t.amount.units as i128;
                        self.held = self.held + t.amount.units as i128;
                        Ok(())
                    },
                }
            },
            Event::Resolve { tx_id, .. } => {
                match ledger.get(*tx_id) {
                    None => Err(AccountingError::TransactionNotFound(*tx_id)),
                    Some(t) => {
                        if !t.is_disputed {
                            return Err(AccountingError::TransactionNotDisputed(*tx_id));
                        }
                        if t.client != self.id {
                            return Err(
                                AccountingError::TransactionClientMismatch {
                                    tx_id: *tx_id,
                                    client: self.id,
                                },
                            );
                        }
                        ledger.set_disputed(*tx_id, false);
                        self.available = self.available + t.amount.units as i128;
                        self.held = self.held - t.amount.units as i128;
                        Ok(())
                    },
                }
            },
            Event::Chargeback { tx_id, .. } => {
                match ledger.get(*tx_id) {
                    None => Err(AccountingError::TransactionNotFound(*tx_id)),
                    Some(t) => {
                        if !t.is_disputed {
                            return Err(AccountingError::TransactionNotDisputed(*tx_id));
                        }
                        if t.client != self.id {
                            return Err(
                                AccountingError::TransactionClientMismatch {
                                    tx_id: *tx_id,
                                    client: self.id,
                                },
                            );
                        }
                        self.held = self.held - t.amount.units as i128;
                        self.locked = true;
                        ledger.remove(*tx_id);
                        Ok(())
                    },
                }
            },
        }
    }

    /// Drain a queue of events in arrival order against the shared ledger,
    /// swallowing per-event rejections, and yield the final account.
    pub fn process_txs(self, ledger: &mut Ledger, events: &Vec<Event>) -> (a: Account)
        requires
            old(ledger).wf(),
            account_run_fits(self@, old(ledger)@, self.id, events@),
        ensures
            final(ledger).wf(),
            a.id == self.id,
            ({
                let o = account_run(self@, old(ledger)@, self.id, events@);
                &&& a@ == o.account
                &&& final(ledger)@ == o.ledger
            }),
    {
        let mut acc = self;
        let ghost a0 = acc@;
        let ghost l0 = ledger@;
        let ghost id = acc.id;
        proof {
            assert(events@.skip(0) =~= events@);
            assert(events@.take(0) =~= Seq::<Event>::empty());
        }
        let n = events.len();
        for i in 0..n
            invariant
                n == events@.len(),
                ledger.wf(),
                acc.id == id,
                account_run(a0, l0, id, events@.take(i as int)) == (AccountLedger {
                    account: acc@,
                    ledger: ledger@,
                }),
                account_run_fits(acc@, ledger@, id, events@.skip(i as int)),
        {
            proof {
                assert(events@.skip(i as int).len() > 0);
                assert(events@.skip(i as int)[0] == events@[i as int]);
                assert(events@.skip(i as int).drop_first() =~= events@.skip(i as int + 1));
            }
            let ghost pre_acc = acc@;
            let ghost pre_led = ledger@;
            let _ = acc.handle_tx(ledger, &events[i]);
            proof {
                lemma_account_run_snoc(a0, l0, id, events@.take(i as int), events@[i as int]);
                assert(events@.take(i as int).push(events@[i as int]) =~= events@.take(
                    i as int + 1,
                ));
            }
        }
        proof {
            assert(events@.take(n as int) =~= events@);
        }
        acc
    }
}

/// Appending one event to a per-account stream runs the stream, then the
/// event.
pub proof fn lemma_account_run_snoc(
    a: crate::model::AccountModel,
    ledger: Map<crate::engine::TxId, Transaction>,
    id: ClientId,
    es: Seq<Event>,
    e: Event,
)
    ensures
        account_run(a, ledger, id, es.push(e)) == ({
            let o = account_run(a, ledger, id, es);
            let o2 = account_step(o.account, o.ledger, id, e);
            AccountLedger { account: o2.account, ledger: o2.ledger }
        }),
    decreases es.len(),
{
    let o = account_run(a, ledger, id, es);
    let o2 = account_step(o.account, o.ledger, id, e);
    if es.len() == 0 {
        assert(es.push(e).drop_first() =~= Seq::<Event>::empty());
        assert(es.push(e)[0] == e);
        assert(o == AccountLedger { account: a, ledger });
        assert(account_run(o2.account, o2.ledger, id, Seq::<Event>::empty()) == AccountLedger {
            account: o2.account,
            ledger: o2.ledger,
        });
        assert(account_run(a, ledger, id, es.push(e)) == AccountLedger {
            account: o2.account,
            ledger: o2.ledger,
        });
    } else {
        let o0 = account_step(a, ledger, id, es[0]);
        assert(es.push(e)[0] == es[0]);
        assert(es.push(e).drop_first() =~= es.drop_first().push(e));
        lemma_account_run_snoc(o0.account, o0.ledger, id, es.drop_first(), e);
        assert(account_run(a, ledger, id, es.push(e)) == account_run(
            o0.account,
            o0.ledger,
            id,
            es.drop_first().push(e),
        ));
        assert(account_run(a, ledger, id, es) == account_run(
            o0.account,
            o0.ledger,
            id,
            es.drop_first(),
        ));
    }
}

} // verus!
