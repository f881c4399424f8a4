use vstd::prelude::*;

use crate::engine::{Amount, ClientId, TxId};

verus! {

/// One event of the input stream, the shared vocabulary of every boundary.
///
/// `Deposit` and `Withdrawal` carry a fresh transaction; the three dispute
/// lifecycle events name an existing transaction by id, together with the
/// client claimed to own it.
#[derive(Clone, Copy, Debug, PartialEq, Eq, Structural)]
pub enum Event {
    Deposit(Transaction),
    Withdrawal(Transaction),
    Dispute { client: ClientId, tx_id: TxId },
    Resolve { client: ClientId, tx_id: TxId },
    Chargeback { client: ClientId, tx_id: TxId },
}

/// A ledger entry, created when a deposit or withdrawal is accepted.
///
/// `amount` is stored signed: deposits positive, withdrawals as their
/// negation, so that disputes can move the stored amount between `available`
/// and `held` uniformly. `is_disputed` toggles on dispute and resolve; a
/// chargeback removes the entry from the ledger entirely.
#[derive(Clone, Copy, Debug, PartialEq, Eq, Structural)]
pub struct Transaction {
    pub id: TxId,
    pub client: ClientId,
    pub amount: Amount,
    pub is_disputed: bool,
}

impl Event {
    /// The client this event is routed by, extracted uniformly from every
    /// variant.
    pub fn client(&self) -> (c: ClientId)
        ensures
            c == crate::model::client_of(*self),
    {
        match self {
            Event::Deposit(t) => t.client,
            Event::Withdrawal(t) => t.client,
            Event::Dispute { client, .. } => *client,
            Event::Resolve { client, .. } => *client,
            Event::Chargeback { client, .. } => *client,
        }
    }
}

} // verus!
