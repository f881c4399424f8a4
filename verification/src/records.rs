//! Raw input records and their mapping to events: the boundary contract of
//! the input collaborator. A record carries a type tag, a client, a
//! transaction id and an optional amount; deposits and withdrawals must
//! carry the amount, the dispute lifecycle events must not, and anything
//! else is dropped.

use vstd::prelude::*;
use vstd::string::*;

use crate::engine::{Amount, ClientId, TxId};
use crate::transactions::{Event, Transaction};

verus! {

/// One raw input record, after the outer reader has split its fields.
#[derive(Debug)]
pub struct Input {
    pub tx_type: String,
    pub client: ClientId,
    pub tx: TxId,
    pub amount: Option<Amount>,
}

/// The event a record stands for: `None` when the type tag is unknown or
/// the optional amount has the wrong presence for the tag.
pub open spec fn spec_convert_input(entry: Input) -> Option<Event> {
    if entry.tx_type@ == "deposit"@ {
        match entry.amount {
            Some(a) => Some(
                Event::Deposit(
                    Transaction {
                        id: entry.tx,
                        client: entry.client,
                        amount: a,
                        is_disputed: false,
                    },
                ),
            ),
            None => None,
        }
    } else if entry.tx_type@ == "withdrawal"@ {
        match entry.amount {
            Some(a) => Some(
                Event::Withdrawal(
                    Transaction {
                        id: entry.tx,
                        client: entry.client,
                        amount: a,
                        is_disputed: false,
                    },
                ),
            ),
            None => None,
        }
    } else if entry.tx_type@ == "dispute"@ {
        match entry.amount {
            Some(a) => None,
            None => Some(Event::Dispute { client: entry.client, tx_id: entry.tx }),
        }
    } else if entry.tx_type@ == "resolve"@ {
        match entry.amount {
            Some(a) => None,
            None => Some(Event::Resolve { client: entry.client, tx_id: entry.tx }),
        }
    } else if entry.tx_type@ == "chargeback"@ {
        match entry.amount {
            Some(a) => None,
            None => Some(Event::Chargeback { client: entry.client, tx_id: entry.tx }),
        }
    } else {
        None
    }
}

/// Map one raw record to the event it stands for, exactly as the input
/// contract's table says.
pub fn convert_input(entry: Input) -> (r: Option<Event>)
    ensures
        r == spec_convert_input(entry),
{
    if entry.tx_type == String::from_str("deposit") {
        match entry.amount {
            Some(a) => Some(
                Event::Deposit(
                    Transaction {
                        id: entry.tx,
                        client: entry.client,
                        amount: a,
                        is_disputed: false,
                    },
                ),
            ),
            None => None,
        }
    } else if entry.tx_type == String::from_str("withdrawal") {
        match entry.amount {
            Some(a) => Some(
                Event::Withdrawal(
                    Transaction {
                        id: entry.tx,
                        client: entry.client,
                        amount: a,
                        is_disputed: false,
                    },
                ),
            ),
            None => None,
        }
    } else if entry.tx_type == String::from_str("dispute") {
        match entry.amount {
            Some(_) => None,
            None => Some(Event::Dispute { client: entry.client, tx_id: entry.tx }),
        }
    } else if entry.tx_type == String::from_str("resolve") {
        match entry.amount {
            Some(_) => None,
            None => Some(Event::Resolve { client: entry.client, tx_id: entry.tx }),
        }
    } else if entry.tx_type == String::from_str("chargeback") {
        match entry.amount {
            Some(_) => None,
            None => Some(Event::Chargeback { client: entry.client, tx_id: entry.tx }),
        }
    } else {
        None
    }
}

} // verus!
