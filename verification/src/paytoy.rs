//! The application: a reader, a manager, and the balance sheet they give.

use crate::account_manager::{run_from, AccountManager, Report};
use crate::transactions_reader::TransactionCSVReader;
use vstd::prelude::*;

verus! {

/// The application.
pub struct PayToyApp {}

impl PayToyApp {
    /// Reads the records of `data` with `reader`, lets `manager` apply them
    /// and returns the balance sheet.
    pub fn run<R: TransactionCSVReader, M: AccountManager>(
        data: &[u8],
        reader: R,
        manager: M,
    ) -> (report: Report)
        requires
            manager.ready(),
        ensures
            report.wf(),
            report@ == run_from(manager.starting_accounts(), reader.reading(data@)),
    {
        let transactions = reader.read_csv(data);
        manager.execute_transactions(transactions)
    }
}

} // verus!
