//! Transaction records as they arrive from the input.

use crate::amount::{Amount, Dec};
use vstd::prelude::*;

verus! {

/// Identifies a transaction.
pub type TransactionId = u32;

/// Identifies a client.
pub type ClientId = u16;

/// What a record asks for.
#[derive(Clone, Copy, Debug, PartialEq, Eq, Structural)]
pub enum TransactionType {
    /// Adds funds to the client's account.
    Deposit,
    /// Takes funds from the client's account.
    Withdrawal,
    /// The client claims that an earlier deposit was made in error: its
    /// amount moves from available to held.
    Dispute,
    /// Settles a dispute in the client's favour: the amount moves back from
    /// held to available.
    Resolve,
    /// Settles a dispute by reversing the deposit: the held amount leaves the
    /// account, and the account is frozen.
    ChargeBack,
}

/// One transaction record.
#[derive(Clone, Copy, Debug)]
pub struct TransactionRecord {
    /// What the record asks for.
    pub tr_type: TransactionType,
    /// The client whose account it concerns.
    pub client: ClientId,
    /// The transaction it introduces or refers to.
    pub tx: TransactionId,
    /// The amount, present on deposits and withdrawals.
    pub amount: Option<Amount>,
}

/// The mathematical model of a [`TransactionRecord`].
pub struct Record {
    pub tr_type: TransactionType,
    pub client: ClientId,
    pub tx: TransactionId,
    pub amount: Option<Dec>,
}

impl View for TransactionRecord {
    type V = Record;

    open spec fn view(&self) -> Record {
        Record {
            tr_type: self.tr_type,
            client: self.client,
            tx: self.tx,
            amount: match self.amount {
                Some(a) => Some(a@),
                None => None,
            },
        }
    }
}

impl Record {
    /// The amount, where there is one, can be held by an [`Amount`]. Holds of
    /// the model of every record that executable code holds.
    pub open spec fn wf(self) -> bool {
        self.amount matches Some(a) ==> a.wf()
    }
}

impl TransactionRecord {
    /// A record made of its four parts.
    pub fn new(
        tr_type: TransactionType,
        client: ClientId,
        tx: TransactionId,
        amount: Option<Amount>,
    ) -> (record: TransactionRecord)
        ensures
            record.tr_type == tr_type,
            record.client == client,
            record.tx == tx,
            record.amount == amount,
    {
        TransactionRecord { tr_type, client, tx, amount }
    }
}

} // verus!
