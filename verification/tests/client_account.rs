use paytoy::amount::Amount;
use paytoy::client_account::{ClientAccount, DisputeProgress, TransactionError};
use paytoy::records::{TransactionRecord, TransactionType};
use rust_decimal::Decimal;

fn amount(mantissa: i64, scale: u32) -> Amount {
    Amount::new(mantissa, scale).unwrap()
}

fn decimal(amount: Amount) -> Decimal {
    Decimal::new(amount.mantissa(), amount.scale())
}

/*  Basic test case for deposits and withdrawal to the account
    User scenario:
        1) Deposit 20$ and then 35$
        2) Withdraw 14$
        3) Try to withdraw 44$, cannot, since no available funds
*/
#[test]
fn test_deposit_and_withdrawal() {
    let mut client = ClientAccount::new(1);

    assert!(client.deposit(1, amount(2000, 2)).is_ok());
    assert!(client.deposit(2, amount(3500, 2)).is_ok());

    assert_eq!(decimal(client.available()), Decimal::new(5500, 2));
    assert_eq!(decimal(client.total()), Decimal::new(5500, 2));
    assert_eq!(decimal(client.held()), Decimal::new(0, 2));
    assert_eq!(client.is_locked(), false);

    assert!(client.withdraw(3, amount(2400, 2)).is_ok());

    assert_eq!(decimal(client.available()), Decimal::new(3100, 2));
    assert_eq!(decimal(client.total()), Decimal::new(3100, 2));
    assert_eq!(decimal(client.held()), Decimal::new(0, 2));
    assert_eq!(client.is_locked(), false);

    assert!(client.withdraw(4, amount(4400, 2)).is_err());

    // Transaction fails since we try to withdraw more than we have
    // The same amount remains
    assert_eq!(decimal(client.available()), Decimal::new(3100, 2));
    assert_eq!(decimal(client.total()), Decimal::new(3100, 2));
    assert_eq!(decimal(client.held()), Decimal::new(0, 2));
    assert_eq!(client.is_locked(), false);
}

/* User scenario:
    1) Make two deposits of 20$ and then 35$, total of 55$
    2) Realize that the deposit for 20$ was erroneous, open a dispute
    3) Now we have 35$ available and a held amount of 20$
    4) Transaction is resolved, the held money is going to available and everything good
*/
#[test]
fn test_dispute_resolved() {
    let mut client = ClientAccount::new(1);

    assert!(client.deposit(1, amount(2000, 2)).is_ok());
    assert!(client.deposit(2, amount(3500, 2)).is_ok());

    // Non-existent transaction, nothing to dispute
    assert!(client.dispute(3).is_err());
    // Can be disputed
    assert!(client.dispute(1).is_ok());

    assert_eq!(decimal(client.available()), Decimal::new(3500, 2));
    assert_eq!(decimal(client.total()), Decimal::new(5500, 2));
    assert_eq!(decimal(client.held()), Decimal::new(2000, 2));
    assert_eq!(client.is_locked(), false);

    // Resolve step
    assert!(client.resolve(1).is_ok());

    assert_eq!(decimal(client.available()), Decimal::new(5500, 2));
    assert_eq!(decimal(client.total()), Decimal::new(5500, 2));
    assert_eq!(decimal(client.held()), Decimal::new(0, 2));
    assert_eq!(client.is_locked(), false);
}

/* User scenario:
    1) Make a deposit on 10$, available and total of 10$
    2) Open a dispute on it
    3) Now we have 0$ available, and 10$ held
    3) Chargeback occurs, account is frozen, 0$ available and total (reversed transaction)
*/
#[test]
fn test_dispute_chargeback() {
    let mut client = ClientAccount::new(1);

    assert!(client.deposit(1, amount(1000, 2)).is_ok());
    assert!(client.dispute(1).is_ok());

    assert_eq!(decimal(client.available()), Decimal::new(0, 2));
    assert_eq!(decimal(client.total()), Decimal::new(1000, 2));
    assert_eq!(decimal(client.held()), Decimal::new(1000, 2));
    assert_eq!(client.is_locked(), false);

    assert!(client.chargeback(1).is_ok());

    assert_eq!(decimal(client.available()), Decimal::new(0, 2));
    assert_eq!(decimal(client.total()), Decimal::new(0, 2));
    assert_eq!(decimal(client.held()), Decimal::new(0, 2));
    assert_eq!(client.is_locked(), true);
}

/* User scenario:
    1) Make a deposit on 10$, available and total of 10$
    2) Withdraw 5$
    3) Make a dispute on 1
    3) Cannot dispute it, since only 5$ available
*/
#[test]
fn test_invalid_dispute() {
    let mut client = ClientAccount::new(1);

    assert!(client.deposit(1, amount(1000, 2)).is_ok());
    assert!(client.withdraw(2, amount(500, 2)).is_ok());

    assert!(client.dispute(1).is_err());

    assert_eq!(decimal(client.available()), Decimal::new(500, 2));
    assert_eq!(decimal(client.total()), Decimal::new(500, 2));
    assert_eq!(decimal(client.held()), Decimal::new(0, 2));
    assert_eq!(client.is_locked(), false);
}

#[test]
fn new_account_is_empty() {
    let client = ClientAccount::new(42);
    assert_eq!(client.id(), 42);
    assert_eq!(client.available().mantissa(), 0);
    assert_eq!(client.held().mantissa(), 0);
    assert_eq!(client.total().mantissa(), 0);
    assert!(!client.is_locked());
    assert_eq!(client.dispute_progress(1), None);
}

#[test]
fn deposit_keeps_the_exact_representation() {
    let mut client = ClientAccount::new(1);
    assert_eq!(client.deposit(1, amount(15, 1)), Ok(()));
    assert_eq!(client.deposit(2, amount(225, 2)), Ok(()));
    // 1.5 + 2.25 = 3.75, at the finer of the two scales
    assert_eq!(client.available().mantissa(), 375);
    assert_eq!(client.available().scale(), 2);
    assert_eq!(client.total().mantissa(), 375);
    assert_eq!(client.dispute_progress(1), Some(DisputeProgress::Idle));
    assert_eq!(client.dispute_progress(2), Some(DisputeProgress::Idle));
}

#[test]
fn withdrawal_of_everything_is_accepted() {
    let mut client = ClientAccount::new(1);
    assert_eq!(client.deposit(1, amount(1000, 2)), Ok(()));
    assert_eq!(client.withdraw(2, amount(10, 0)), Ok(()));
    assert_eq!(decimal(client.available()), Decimal::ZERO);
}

#[test]
fn withdrawal_leaves_no_ledger_entry() {
    let mut client = ClientAccount::new(1);
    assert_eq!(client.deposit(1, amount(1000, 2)), Ok(()));
    assert_eq!(client.withdraw(2, amount(100, 2)), Ok(()));
    assert_eq!(client.dispute_progress(2), None);
    assert_eq!(client.dispute(2), Err(TransactionError::UnknownTransaction));
    // a withdrawal does not take its id: the same id can come again
    assert_eq!(client.withdraw(2, amount(100, 2)), Ok(()));
    assert_eq!(client.deposit(2, amount(100, 2)), Ok(()));
    assert_eq!(decimal(client.available()), Decimal::new(900, 2));
}

#[test]
fn second_deposit_with_the_same_id_is_rejected() {
    let mut client = ClientAccount::new(1);
    assert_eq!(client.deposit(7, amount(1000, 2)), Ok(()));
    assert_eq!(client.deposit(7, amount(500, 2)), Err(TransactionError::DuplicateTransaction));
    assert_eq!(client.withdraw(7, amount(100, 2)), Err(TransactionError::DuplicateTransaction));
    assert_eq!(decimal(client.available()), Decimal::new(1000, 2));
    // still rejected after other records
    assert_eq!(client.deposit(8, amount(100, 2)), Ok(()));
    assert_eq!(client.dispute(7), Ok(()));
    assert_eq!(client.resolve(7), Ok(()));
    assert_eq!(client.deposit(7, amount(500, 2)), Err(TransactionError::DuplicateTransaction));
    assert_eq!(client.withdraw(7, amount(100, 2)), Err(TransactionError::DuplicateTransaction));
}

#[test]
fn every_error_has_an_input() {
    let mut client = ClientAccount::new(1);
    assert_eq!(client.deposit(1, amount(1000, 2)), Ok(()));
    assert_eq!(client.deposit(1, amount(1, 0)), Err(TransactionError::DuplicateTransaction));
    assert_eq!(client.withdraw(2, amount(1001, 2)), Err(TransactionError::InsufficientFunds));
    assert_eq!(client.dispute(9), Err(TransactionError::UnknownTransaction));
    assert_eq!(client.resolve(9), Err(TransactionError::UnknownTransaction));
    assert_eq!(client.chargeback(9), Err(TransactionError::UnknownTransaction));
    assert_eq!(client.resolve(1), Err(TransactionError::NotDisputed));
    assert_eq!(client.chargeback(1), Err(TransactionError::NotDisputed));
    assert_eq!(client.withdraw(3, amount(600, 2)), Ok(()));
    assert_eq!(client.dispute(1), Err(TransactionError::InsufficientFundsForDispute));
    assert_eq!(client.deposit(4, amount(600, 2)), Ok(()));
    assert_eq!(client.dispute(1), Ok(()));
    assert_eq!(client.dispute(1), Err(TransactionError::AlreadyDisputed));
    assert_eq!(client.deposit(5, amount(i64::MAX, 2)), Err(TransactionError::AmountOutOfRange));
    let no_amount = TransactionRecord::new(TransactionType::Deposit, 1, 6, None);
    assert_eq!(client.apply(&no_amount), Err(TransactionError::MissingAmount));
    let no_amount = TransactionRecord::new(TransactionType::Withdrawal, 1, 6, None);
    assert_eq!(client.apply(&no_amount), Err(TransactionError::MissingAmount));
    assert_eq!(client.chargeback(1), Ok(()));
    let deposit = TransactionRecord::new(TransactionType::Deposit, 1, 7, Some(amount(1, 0)));
    assert_eq!(client.apply(&deposit), Err(TransactionError::AccountLocked));
    assert_eq!(client.resolve(1), Err(TransactionError::NotDisputed));
    assert_eq!(client.dispute(1), Err(TransactionError::AlreadyDisputed));
}

#[test]
fn held_funds_too_low_for_resolve_and_chargeback() {
    // a negative deposit can be disputed; what is held then is negative,
    // and a dispute of a regular deposit cannot be closed against it
    let mut client = ClientAccount::new(1);
    assert_eq!(client.deposit(1, amount(1000, 2)), Ok(()));
    assert_eq!(client.deposit(2, amount(-400, 2)), Ok(()));
    assert_eq!(client.deposit(3, amount(300, 2)), Ok(()));
    assert_eq!(client.dispute(3), Ok(()));
    assert_eq!(client.dispute(2), Ok(()));
    assert_eq!(decimal(client.held()), Decimal::new(-100, 2));
    assert_eq!(client.resolve(3), Err(TransactionError::InsufficientHeldFunds));
    assert_eq!(client.chargeback(3), Err(TransactionError::InsufficientHeldFunds));
    assert_eq!(decimal(client.available()), Decimal::new(1000, 2));
}

#[test]
fn refused_transactions_change_nothing() {
    let mut client = ClientAccount::new(1);
    assert_eq!(client.deposit(1, amount(1000, 2)), Ok(()));
    assert_eq!(client.dispute(1), Ok(()));
    let available = decimal(client.available());
    let held = decimal(client.held());
    assert!(client.deposit(1, amount(5, 0)).is_err());
    assert!(client.withdraw(2, amount(5, 0)).is_err());
    assert!(client.dispute(1).is_err());
    assert!(client.resolve(2).is_err());
    assert!(client.chargeback(2).is_err());
    assert_eq!(decimal(client.available()), available);
    assert_eq!(decimal(client.held()), held);
    assert_eq!(client.dispute_progress(1), Some(DisputeProgress::InProgress));
    assert!(!client.is_locked());
}

#[test]
fn total_is_available_plus_held() {
    let mut client = ClientAccount::new(1);
    assert_eq!(client.deposit(1, amount(12345, 4)), Ok(()));
    assert_eq!(client.deposit(2, amount(255, 1)), Ok(()));
    assert_eq!(client.dispute(1), Ok(()));
    assert_eq!(decimal(client.available()), Decimal::new(255000, 4));
    assert_eq!(decimal(client.held()), Decimal::new(12345, 4));
    assert_eq!(
        decimal(client.total()),
        decimal(client.available()) + decimal(client.held())
    );
    assert_eq!(decimal(client.total()), Decimal::new(267345, 4));
}

#[test]
fn dispute_follows_its_path() {
    let mut client = ClientAccount::new(1);
    assert_eq!(client.deposit(1, amount(1000, 2)), Ok(()));
    assert_eq!(client.deposit(2, amount(1000, 2)), Ok(()));
    assert_eq!(client.dispute_progress(1), Some(DisputeProgress::Idle));
    assert_eq!(client.dispute(1), Ok(()));
    assert_eq!(client.dispute_progress(1), Some(DisputeProgress::InProgress));
    assert_eq!(client.resolve(1), Ok(()));
    assert_eq!(client.dispute_progress(1), Some(DisputeProgress::Done));
    // no way back and no way on
    assert_eq!(client.dispute(1), Err(TransactionError::AlreadyDisputed));
    assert_eq!(client.resolve(1), Err(TransactionError::NotDisputed));
    assert_eq!(client.chargeback(1), Err(TransactionError::NotDisputed));
    assert_eq!(client.dispute_progress(1), Some(DisputeProgress::Done));
    assert_eq!(client.dispute_progress(2), Some(DisputeProgress::Idle));
}

#[test]
fn chargeback_locks_and_freezes() {
    let mut client = ClientAccount::new(1);
    assert_eq!(client.deposit(1, amount(1000, 2)), Ok(()));
    assert_eq!(client.deposit(2, amount(700, 2)), Ok(()));
    assert_eq!(client.dispute(1), Ok(()));
    assert_eq!(client.dispute(2), Ok(()));
    assert_eq!(client.chargeback(1), Ok(()));
    assert!(client.is_locked());
    assert_eq!(decimal(client.available()), Decimal::ZERO);
    assert_eq!(decimal(client.held()), Decimal::new(700, 2));
    assert_eq!(decimal(client.total()), Decimal::new(700, 2));
    let records = [
        TransactionRecord::new(TransactionType::Deposit, 1, 3, Some(amount(5, 0))),
        TransactionRecord::new(TransactionType::Withdrawal, 1, 4, Some(amount(1, 0))),
        TransactionRecord::new(TransactionType::Dispute, 1, 2, None),
        TransactionRecord::new(TransactionType::Resolve, 1, 2, None),
        TransactionRecord::new(TransactionType::ChargeBack, 1, 2, None),
    ];
    for record in records.iter() {
        assert_eq!(client.apply(record), Err(TransactionError::AccountLocked));
        assert_eq!(decimal(client.available()), Decimal::ZERO);
        assert_eq!(decimal(client.held()), Decimal::new(700, 2));
        assert_eq!(decimal(client.total()), Decimal::new(700, 2));
        assert!(client.is_locked());
    }
    assert_eq!(client.dispute_progress(2), Some(DisputeProgress::InProgress));
}

#[test]
fn apply_performs_the_named_operation() {
    let mut client = ClientAccount::new(3);
    let deposit = TransactionRecord::new(TransactionType::Deposit, 3, 1, Some(amount(100, 1)));
    let withdrawal = TransactionRecord::new(TransactionType::Withdrawal, 3, 2, Some(amount(25, 1)));
    let dispute = TransactionRecord::new(TransactionType::Dispute, 3, 1, None);
    let resolve = TransactionRecord::new(TransactionType::Resolve, 3, 1, None);
    assert_eq!(client.apply(&deposit), Ok(()));
    assert_eq!(client.apply(&withdrawal), Ok(()));
    assert_eq!(decimal(client.available()), Decimal::new(75, 1));
    assert_eq!(client.apply(&dispute), Err(TransactionError::InsufficientFundsForDispute));
    let more = TransactionRecord::new(TransactionType::Deposit, 3, 3, Some(amount(25, 1)));
    assert_eq!(client.apply(&more), Ok(()));
    assert_eq!(client.apply(&dispute), Ok(()));
    assert_eq!(decimal(client.available()), Decimal::ZERO);
    assert_eq!(decimal(client.held()), Decimal::new(100, 1));
    assert_eq!(client.apply(&resolve), Ok(()));
    assert_eq!(decimal(client.available()), Decimal::new(100, 1));
    assert_eq!(decimal(client.held()), Decimal::ZERO);
}

#[test]
fn balances_at_the_edge_of_the_range() {
    let mut client = ClientAccount::new(1);
    assert_eq!(client.deposit(1, amount(i64::MAX, 0)), Ok(()));
    assert_eq!(client.deposit(2, amount(1, 0)), Err(TransactionError::AmountOutOfRange));
    // one tenth does not fit beside the largest mantissa either
    assert_eq!(client.deposit(3, amount(1, 1)), Err(TransactionError::AmountOutOfRange));
    assert_eq!(client.available().mantissa(), i64::MAX);
    assert_eq!(client.withdraw(4, amount(i64::MAX, 0)), Ok(()));
    assert_eq!(decimal(client.available()), Decimal::ZERO);
}

#[test]
fn row_has_four_fractional_digits() {
    let mut client = ClientAccount::new(1);
    assert_eq!(client.deposit(1, amount(15, 1)), Ok(()));
    assert_eq!(
        client.to_row(),
        "     1,         1.5000,         0.0000,         1.5000,     false"
    );
    assert_eq!(client.dispute(1), Ok(()));
    assert_eq!(client.chargeback(1), Ok(()));
    assert_eq!(
        client.to_row(),
        "     1,         0.0000,         0.0000,         0.0000,     true"
    );
    let other = ClientAccount::new(65535);
    assert_eq!(
        other.to_row(),
        " 65535,         0.0000,         0.0000,         0.0000,     false"
    );
}

#[test]
fn error_messages() {
    assert_eq!(TransactionError::DuplicateTransaction.message(), "Transaction already exists");
    assert_eq!(
        TransactionError::MissingAmount.message(),
        "Transaction failed due to missing amount"
    );
    assert_eq!(
        TransactionError::AlreadyDisputed.message(),
        "Dispute already in progress or done"
    );
    assert_eq!(
        TransactionError::InsufficientFundsForDispute.message(),
        "Not enough funds to open a dispute"
    );
}
