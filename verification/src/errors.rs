use vstd::prelude::*;

use crate::engine::{ClientId, TxId};

verus! {

/// Why a single event was rejected. Every rejection is local to its event:
/// the run continues, and no other event or client is affected.
#[derive(Clone, Copy, Debug, PartialEq, Eq, Structural)]
pub enum AccountingError {
    /// A deposit or withdrawal reused a transaction id already in the ledger.
    DuplicateTransaction(TxId),
    /// A withdrawal asked for more than the client's available funds.
    InsufficientFunds(ClientId),
    /// A dispute, resolve or chargeback named an id absent from the ledger.
    TransactionNotFound(TxId),
    /// A dispute named a transaction already under dispute.
    TransactionAlreadyDisputed(TxId),
    /// A resolve or chargeback named a transaction not under dispute.
    TransactionNotDisputed(TxId),
    /// The account was frozen by an earlier chargeback; nothing is honored.
    AccountFrozen(ClientId),
    /// The named transaction belongs to a different client than claimed.
    TransactionClientMismatch { tx_id: TxId, client: ClientId },
    /// A deposit or withdrawal carried a non-positive amount.
    InvalidAmount,
}

} // verus!
