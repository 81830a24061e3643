use paytoy::account_manager::{
    dispatch, shard_index, AccountManager, MTAccountManager, Report, STAccountManager,
};
use paytoy::amount::Amount;
use paytoy::client_account::TransactionError;
use paytoy::records::TransactionType::{ChargeBack, Deposit, Dispute, Resolve, Withdrawal};
use paytoy::records::{TransactionRecord, TransactionType};
use paytoy::transactions_reader::{MTReader, STBulkReader, TransactionCSVReader};
use rust_decimal::Decimal;

fn decimal(amount: Amount) -> Decimal {
    Decimal::new(amount.mantissa(), amount.scale())
}

fn record(tr_type: TransactionType, client: u16, tx: u32, amount: Option<(i64, u32)>) -> TransactionRecord {
    TransactionRecord::new(
        tr_type,
        client,
        tx,
        amount.map(|(mantissa, scale)| Amount::new(mantissa, scale).unwrap()),
    )
}

const BASIC: &str = "type,client,tx,amount
deposit,1,1,1.0
deposit,2,2,2.0
deposit,1,3,2.0
withdrawal,1,4,1.5
withdrawal,2,5,3.0
";

const LOCKED: &str = "type, client, tx, amount
deposit, 1, 1, 2.5
deposit, 1, 2, 4.0
dispute, 1, 2,
chargeback, 1, 2,
deposit, 1, 3, 10.0
withdrawal, 1, 4, 1.0
";

/* Tests the provided test case returns:
    client, available, held, total, locked
    1, 1.5, 0.0, 1.5, false
    2, 2.0, 0.0, 2.0, false
*/
fn check_basic_transactions(manager: impl AccountManager, transactions: Vec<TransactionRecord>) {
    let report = manager.execute_transactions(transactions);

    let account1 = report.get(1).unwrap();
    let account2 = report.get(2).unwrap();

    assert_eq!(account1.id(), 1);
    assert_eq!(decimal(account1.available()), Decimal::new(15, 1));
    assert_eq!(decimal(account1.held()), Decimal::new(0, 1));
    assert_eq!(decimal(account1.total()), Decimal::new(15, 1));
    assert_eq!(account1.is_locked(), false);

    assert_eq!(account2.id(), 2);
    assert_eq!(decimal(account2.available()), Decimal::new(20, 1));
    assert_eq!(decimal(account2.held()), Decimal::new(0, 1));
    assert_eq!(decimal(account2.total()), Decimal::new(20, 1));
    assert_eq!(account2.is_locked(), false);
}

#[test]
fn test_basic_transactions_st() {
    let transactions = STBulkReader::new().read_csv(BASIC.as_bytes());
    let manager = STAccountManager::new();

    check_basic_transactions(manager, transactions);
}

#[test]
fn test_basic_transactions_mt() {
    let transactions = MTReader::new().read_csv(BASIC.as_bytes());
    let manager = MTAccountManager::new(2);

    check_basic_transactions(manager, transactions);
}

// Test with a locked client
fn check_locked_client(manager: impl AccountManager, transactions: Vec<TransactionRecord>) {
    let report = manager.execute_transactions(transactions);

    let account = report.get(1).unwrap();

    assert_eq!(account.id(), 1);
    assert_eq!(decimal(account.available()), Decimal::new(25, 1));
    assert_eq!(decimal(account.held()), Decimal::new(0, 1));
    assert_eq!(decimal(account.total()), Decimal::new(25, 1));
    assert_eq!(account.is_locked(), true);
}

#[test]
fn test_basic_locked_st() {
    let transactions = STBulkReader::new().read_csv(LOCKED.as_bytes());
    let manager = STAccountManager::new();

    check_locked_client(manager, transactions);
}

#[test]
fn test_basic_locked_mt() {
    let transactions = MTReader::new().read_csv(LOCKED.as_bytes());
    let manager = MTAccountManager::new(2);

    check_locked_client(manager, transactions);
}

fn one_deposit_per_client() -> String {
    let mut text = String::from("type,client,tx,amount\n");
    for client_id in 1..u16::MAX {
        text.push_str(&format!("deposit,{},{},{}\n", client_id, client_id, client_id));
    }
    text
}

#[test]
fn test_correctness() {
    let data = one_deposit_per_client();
    let transactions = STBulkReader::new().read_csv(data.as_bytes());
    let manager = STAccountManager::new();

    let st_report = manager.execute_transactions(transactions);

    let transactions = MTReader::new().read_csv(data.as_bytes());
    let manager = MTAccountManager::new(2);

    let mt_report = manager.execute_transactions(transactions);

    for client_id in 1..u16::MAX {
        let expected = Decimal::from(client_id);
        assert_eq!(decimal(st_report.get(client_id).unwrap().total()), expected);
        assert_eq!(decimal(mt_report.get(client_id).unwrap().total()), expected);
    }
}

fn sample() -> Vec<TransactionRecord> {
    vec![
        record(Deposit, 1, 1, Some((1000, 2))),
        record(Deposit, 2, 2, Some((20, 0))),
        record(Deposit, 9, 3, Some((12345, 4))),
        record(Withdrawal, 1, 4, Some((25, 1))),
        record(Dispute, 2, 2, None),
        record(Deposit, 1, 5, Some((1, 0))),
        record(Dispute, 1, 1, None),
        record(Withdrawal, 9, 6, Some((2, 0))),
        record(Deposit, 17, 7, Some((500, 2))),
        record(Resolve, 2, 2, None),
        record(Deposit, 33, 8, Some((7, 0))),
        record(Dispute, 33, 8, None),
        record(ChargeBack, 33, 8, None),
        record(Deposit, 33, 9, Some((7, 0))),
        record(Dispute, 17, 1, None),
        record(Deposit, 1, 1, Some((99, 0))),
        record(Deposit, 65535, 10, Some((1, 9))),
        record(Withdrawal, 5, 11, Some((1, 0))),
        record(Deposit, 2, 12, None),
    ]
}

fn snapshot(report: &Report) -> Vec<(u16, Decimal, Decimal, Decimal, bool)> {
    let mut accounts = Vec::new();
    for i in 0..report.len() {
        let account = report.account_at(i);
        accounts.push((
            account.id(),
            decimal(account.available()),
            decimal(account.held()),
            decimal(account.total()),
            account.is_locked(),
        ));
    }
    accounts.sort();
    accounts
}

fn expected_sample() -> Vec<(u16, Decimal, Decimal, Decimal, bool)> {
    vec![
        (1, Decimal::new(-150, 2), Decimal::new(1000, 2), Decimal::new(850, 2), false),
        (2, Decimal::new(20, 0), Decimal::new(0, 0), Decimal::new(20, 0), false),
        (5, Decimal::ZERO, Decimal::ZERO, Decimal::ZERO, false),
        (9, Decimal::new(12345, 4), Decimal::ZERO, Decimal::new(12345, 4), false),
        (17, Decimal::new(5, 0), Decimal::ZERO, Decimal::new(5, 0), false),
        (33, Decimal::ZERO, Decimal::ZERO, Decimal::ZERO, true),
        (65535, Decimal::new(1, 9), Decimal::ZERO, Decimal::new(1, 9), false),
    ]
}

#[test]
fn sample_gives_the_expected_accounts() {
    let report = STAccountManager::new().execute_transactions(sample());
    let mut expected = expected_sample();
    // the dispute of client 1 is refused: 10.00 exceeds the 8.50 available
    expected[0] = (1, Decimal::new(850, 2), Decimal::ZERO, Decimal::new(850, 2), false);
    assert_eq!(snapshot(&report), expected);
}

#[test]
fn any_shard_count_gives_the_same_report() {
    let single = snapshot(&STAccountManager::new().execute_transactions(sample()));
    for shards in [1usize, 2, 3, 4, 7, 16, 1000, 65536, 70000] {
        let report = MTAccountManager::new(shards).execute_transactions(sample());
        assert_eq!(snapshot(&report), single, "with {} shards", shards);
    }
}

#[test]
fn same_input_gives_the_same_report() {
    let first = STAccountManager::new().execute_transactions(sample());
    let second = STAccountManager::new().execute_transactions(sample());
    assert_eq!(snapshot(&first), snapshot(&second));
    assert_eq!(first.lines(), second.lines());
    let first = MTAccountManager::new(3).execute_transactions(sample());
    let second = MTAccountManager::new(3).execute_transactions(sample());
    assert_eq!(first.lines(), second.lines());
}

#[test]
fn report_has_every_client_once() {
    let report = MTAccountManager::new(4).execute_transactions(sample());
    let mut ids: Vec<u16> = (0..report.len()).map(|i| report.account_at(i).id()).collect();
    ids.sort();
    assert_eq!(ids, vec![1, 2, 5, 9, 17, 33, 65535]);
    for id in ids {
        assert_eq!(report.get(id).unwrap().id(), id);
    }
    assert!(report.get(3).is_none());
}

#[test]
fn colliding_clients_share_a_shard() {
    // all of these fall on shard 1 of 8
    let clients: [u16; 6] = [1, 9, 17, 25, 33, 65529];
    let mut records = Vec::new();
    let mut tx = 0;
    for round in 0..3 {
        for client in clients.iter().copied() {
            tx += 1;
            records.push(record(TransactionType::Deposit, client, tx, Some((client as i64 + round, 0))));
        }
    }
    for client in clients.iter().copied() {
        assert_eq!(shard_index(client, 8), 1);
    }
    let queues = dispatch(&records, 8);
    assert_eq!(queues.len(), 8);
    assert_eq!(queues[1].len(), records.len());
    let report = MTAccountManager::new(8).execute_transactions(records);
    assert_eq!(report.len(), clients.len());
    for client in clients.iter().copied() {
        let account = report.get(client).unwrap();
        assert_eq!(decimal(account.total()), Decimal::from(3 * client as i64 + 3));
    }
}

#[test]
fn dispatch_keeps_the_order_of_each_client() {
    let records = sample();
    let queues = dispatch(&records, 4);
    assert_eq!(queues.len(), 4);
    let mut seen = 0;
    for (shard, queue) in queues.iter().enumerate() {
        let expected: Vec<u32> = records
            .iter()
            .filter(|r| r.client as usize % 4 == shard)
            .map(|r| r.tx)
            .collect();
        let found: Vec<u32> = queue.iter().map(|r| r.tx).collect();
        assert_eq!(found, expected);
        for r in queue {
            assert_eq!(shard_index(r.client, 4), shard);
        }
        seen += queue.len();
    }
    assert_eq!(seen, records.len());
}

#[test]
fn shard_index_is_the_remainder() {
    assert_eq!(shard_index(0, 1), 0);
    assert_eq!(shard_index(65535, 1), 0);
    assert_eq!(shard_index(10, 4), 2);
    assert_eq!(shard_index(65535, 65536), 65535);
    assert_eq!(shard_index(65535, 65537), 65535);
    assert_eq!(shard_index(300, 256), 44);
}

#[test]
fn empty_input_gives_an_empty_report() {
    let report = STAccountManager::new().execute_transactions(Vec::new());
    assert_eq!(report.len(), 0);
    assert!(report.get(1).is_none());
    assert_eq!(
        report.lines(),
        vec![String::from("client,     available,          held,         total,   locked")]
    );
    let report = MTAccountManager::new(4).execute_transactions(Vec::new());
    assert_eq!(report.len(), 0);
    let report = Report::new();
    assert_eq!(report.len(), 0);
}

#[test]
fn refused_record_still_creates_the_account() {
    let records = vec![record(TransactionType::Dispute, 4, 1, None)];
    let report = STAccountManager::new().execute_transactions(records);
    assert_eq!(report.len(), 1);
    let account = report.get(4).unwrap();
    assert_eq!(decimal(account.total()), Decimal::ZERO);
    assert!(!account.is_locked());
}

#[test]
fn apply_hands_back_the_reason() {
    let mut manager = STAccountManager::new();
    assert_eq!(manager.apply(&record(TransactionType::Deposit, 1, 1, Some((10, 0)))), Ok(()));
    assert_eq!(
        manager.apply(&record(TransactionType::Deposit, 1, 1, Some((10, 0)))),
        Err(TransactionError::DuplicateTransaction)
    );
    // the transaction of another client is unknown to this one
    assert_eq!(
        manager.apply(&record(TransactionType::Dispute, 2, 1, None)),
        Err(TransactionError::UnknownTransaction)
    );
    assert_eq!(
        manager.apply(&record(TransactionType::Withdrawal, 1, 2, None)),
        Err(TransactionError::MissingAmount)
    );
    assert_eq!(manager.apply(&record(TransactionType::Dispute, 1, 1, None)), Ok(()));
    assert_eq!(manager.apply(&record(TransactionType::ChargeBack, 1, 1, None)), Ok(()));
    assert_eq!(
        manager.apply(&record(TransactionType::Deposit, 1, 3, Some((10, 0)))),
        Err(TransactionError::AccountLocked)
    );
    let report = manager.into_report();
    assert_eq!(report.len(), 2);
    assert!(report.get(1).unwrap().is_locked());
    assert_eq!(decimal(report.get(1).unwrap().total()), Decimal::ZERO);
}

#[test]
fn absorb_takes_over_the_accounts() {
    let mut first = STAccountManager::new();
    assert!(first.apply(&record(TransactionType::Deposit, 1, 1, Some((10, 0)))).is_ok());
    assert!(first.apply(&record(TransactionType::Deposit, 2, 2, Some((20, 0)))).is_ok());
    let mut second = STAccountManager::new();
    assert!(second.apply(&record(TransactionType::Deposit, 3, 3, Some((30, 0)))).is_ok());
    assert!(second.apply(&record(TransactionType::Deposit, 2, 4, Some((40, 0)))).is_ok());
    let mut report = first.into_report();
    report.absorb(second.into_report());
    assert_eq!(report.len(), 3);
    assert_eq!(decimal(report.get(1).unwrap().total()), Decimal::from(10));
    // where both sides hold the client, the absorbed account stays
    assert_eq!(decimal(report.get(2).unwrap().total()), Decimal::from(40));
    assert_eq!(decimal(report.get(3).unwrap().total()), Decimal::from(30));
}

#[test]
fn lines_follow_the_order_of_first_sight() {
    let records = vec![
        record(TransactionType::Deposit, 7, 1, Some((15, 1))),
        record(TransactionType::Deposit, 3, 2, Some((2, 0))),
        record(TransactionType::Deposit, 7, 3, Some((1, 0))),
    ];
    let report = STAccountManager::new().execute_transactions(records);
    assert_eq!(
        report.lines(),
        vec![
            String::from("client,     available,          held,         total,   locked"),
            String::from("     7,         2.5000,         0.0000,         2.5000,     false"),
            String::from("     3,         2.0000,         0.0000,         2.0000,     false"),
        ]
    );
    assert_eq!(report.account_at(0).id(), 7);
    assert_eq!(report.account_at(1).id(), 3);
}

#[test]
fn held_funds_stay_non_negative_without_negative_deposits() {
    let report = MTAccountManager::new(3).execute_transactions(sample());
    for i in 0..report.len() {
        let account = report.account_at(i);
        assert!(decimal(account.held()) >= Decimal::ZERO);
        assert!(decimal(account.available()) >= Decimal::ZERO);
        assert_eq!(
            decimal(account.total()),
            decimal(account.available()) + decimal(account.held())
        );
    }
}

#[test]
fn negative_deposit_in_dispute_makes_held_funds_negative() {
    let records = vec![
        record(TransactionType::Deposit, 1, 1, Some((-5, 0))),
        record(TransactionType::Dispute, 1, 1, None),
    ];
    let report = STAccountManager::new().execute_transactions(records);
    let account = report.get(1).unwrap();
    assert_eq!(decimal(account.held()), Decimal::from(-5));
    assert_eq!(decimal(account.available()), Decimal::ZERO);
    assert_eq!(decimal(account.total()), Decimal::from(-5));
}

#[test]
fn manager_has_its_shard_count() {
    assert_eq!(MTAccountManager::new(5).num_threads(), 5);
}
