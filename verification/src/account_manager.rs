//! Account managers: they apply a stream of records to the accounts of the
//! clients it names and hand back the final balance sheet.

use crate::client_account::{AccountView, ClientAccount, TransactionError};
use crate::records::{ClientId, Record, TransactionRecord};
use crate::table::Table;
use vstd::prelude::*;
use vstd::string::StringExecFns;

verus! {

/// The accounts of all clients seen so far, by client id.
pub type Accounts = Map<ClientId, AccountView>;

/// The models of a sequence of records.
pub open spec fn records_of(transactions: Seq<TransactionRecord>) -> Seq<Record> {
    Seq::new(transactions.len(), |i: int| transactions[i]@)
}

/// The account of `client`: the one the map holds, or a fresh one where the
/// client has not been seen.
pub open spec fn account_of(accounts: Accounts, client: ClientId) -> AccountView {
    if accounts.contains_key(client) {
        accounts[client]
    } else {
        AccountView::fresh(client)
    }
}

/// The accounts after one record: the account of the record's client is
/// created if need be and takes the record; all others stay as they are.
pub open spec fn step(accounts: Accounts, record: Record) -> Accounts {
    accounts.insert(record.client, account_of(accounts, record.client).after(record))
}

/// The accounts after a sequence of records, applied first to last.
pub open spec fn run_from(accounts: Accounts, records: Seq<Record>) -> Accounts
    decreases records.len(),
{
    if records.len() == 0 {
        accounts
    } else {
        step(run_from(accounts, records.drop_last()), records.last())
    }
}

/// The accounts after a sequence of records, starting without accounts.
pub open spec fn run(records: Seq<Record>) -> Accounts {
    run_from(Map::empty(), records)
}

/// Every account is well formed and filed under its own id.
pub open spec fn accounts_wf(accounts: Accounts) -> bool {
    forall|client: ClientId| #[trigger]
        accounts.contains_key(client) ==> accounts[client].wf() && accounts[client].id == client
}

/// The records of one client, in their order.
pub open spec fn for_client(records: Seq<Record>, client: ClientId) -> Seq<Record> {
    records.filter(|r: Record| r.client == client)
}

/// The shard that owns a client when there are `shards` of them.
pub open spec fn shard_of(client: ClientId, shards: nat) -> nat {
    (client as nat) % shards
}

/// The records routed to shard `i` of `shards`, in their order.
pub open spec fn shard(records: Seq<Record>, shards: nat, i: nat) -> Seq<Record> {
    records.filter(|r: Record| shard_of(r.client, shards) == i)
}

/// The union of the accounts of all shards: each client is looked up in the
/// shard that owns it.
pub open spec fn merged(records: Seq<Record>, shards: nat) -> Accounts {
    Map::new(
        |client: ClientId|
            run(shard(records, shards, shard_of(client, shards))).contains_key(client),
        |client: ClientId| run(shard(records, shards, shard_of(client, shards)))[client],
    )
}

/// The header line of the balance sheet.
pub open spec fn header_text() -> Seq<char> {
    "client,     available,          held,         total,   locked"@
}

/// The accounts that a table holds, by client id.
pub closed spec fn table_accounts(table: Table<ClientAccount>) -> Accounts {
    Map::new(
        |client: ClientId| table@.contains_key(client as u32),
        |client: ClientId| table@[client as u32]@,
    )
}

/// The accounts that a table holds, in the order in which their clients were
/// first seen.
pub closed spec fn table_order(table: Table<ClientAccount>) -> Seq<AccountView> {
    Seq::new(table.values().len(), |i: int| table.values()[i]@)
}

/// The table is well formed, and each account in it is well formed and
/// stands under its own id.
pub closed spec fn table_wf(table: Table<ClientAccount>) -> bool {
    &&& table.wf()
    &&& forall|key: u32| #[trigger]
        table@.contains_key(key) ==> table@[key].wf() && table@[key]@.id as u32 == key
}

/// In a well-formed table every account is well formed and filed under its
/// id, and the accounts in order are those of the map, each once.
pub proof fn lemma_table(table: Table<ClientAccount>)
    requires
        table_wf(table),
    ensures
        accounts_wf(table_accounts(table)),
        forall|i: int|
            0 <= i < table_order(table).len() ==> table_accounts(table).contains_key(
                (#[trigger] table_order(table)[i]).id,
            ) && table_accounts(table)[table_order(table)[i].id] == table_order(table)[i],
        forall|i: int, j: int|
            0 <= i < j < table_order(table).len() ==> (#[trigger] table_order(table)[i]).id != (
            #[trigger] table_order(table)[j]).id,
        forall|client: ClientId| #[trigger]
            table_accounts(table).contains_key(client) ==> exists|i: int|
                0 <= i < table_order(table).len() && table_order(table)[i] == table_accounts(
                    table,
                )[client],
{
    table.lemma_layout();
    let accounts = table_accounts(table);
    let order = table_order(table);
    assert forall|client: ClientId| #[trigger] accounts.contains_key(client) implies accounts[client].wf()
        && accounts[client].id == client && exists|i: int|
        0 <= i < order.len() && order[i] == accounts[client] by {
        assert(table@.contains_key(client as u32));
        let i = choose|i: int| 0 <= i < table.keys().len() && table.keys()[i] == client as u32;
        table@[client as u32].lemma_view_wf();
        assert(table@.contains_key(table.keys()[i]));
        assert(order[i] == accounts[client]);
    }
    assert forall|i: int| 0 <= i < order.len() implies accounts.contains_key(
        (#[trigger] order[i]).id,
    ) && accounts[order[i].id] == order[i] by {
        assert(table@.contains_key(table.keys()[i]));
    }
    assert forall|i: int, j: int| 0 <= i < j < order.len() implies (#[trigger] order[i]).id != (
    #[trigger] order[j]).id by {
        assert(table@.contains_key(table.keys()[i]));
        assert(table@.contains_key(table.keys()[j]));
    }
}

/// The final balance sheet: the account of every client that was seen.
pub struct Report {
    accounts: Table<ClientAccount>,
}

impl View for Report {
    type V = Accounts;

    closed spec fn view(&self) -> Accounts {
        table_accounts(self.accounts)
    }
}

impl Report {
    /// The report is a well-formed table of well-formed accounts.
    pub closed spec fn wf(&self) -> bool {
        table_wf(self.accounts)
    }

    /// The accounts in the order in which their clients were first seen.
    pub closed spec fn in_order(&self) -> Seq<AccountView> {
        table_order(self.accounts)
    }

    /// Every account of a report is well formed and filed under its id, and
    /// the accounts in order are those of the map, each once.
    pub proof fn lemma_accounts(&self)
        requires
            self.wf(),
        ensures
            accounts_wf(self@),
            forall|i: int|
                0 <= i < self.in_order().len() ==> self@.contains_key(
                    (#[trigger] self.in_order()[i]).id,
                ) && self@[self.in_order()[i].id] == self.in_order()[i],
            forall|i: int, j: int|
                0 <= i < j < self.in_order().len() ==> (#[trigger] self.in_order()[i]).id != (
                #[trigger] self.in_order()[j]).id,
            forall|client: ClientId| #[trigger]
                self@.contains_key(client) ==> exists|i: int|
                    0 <= i < self.in_order().len() && self.in_order()[i] == self@[client],
    {
        lemma_table(self.accounts);
        assert forall|client: ClientId| #[trigger] self@.contains_key(client) implies exists|i: int|
            0 <= i < self.in_order().len() && self.in_order()[i] == self@[client] by {
            let i = choose|i: int|
                0 <= i < table_order(self.accounts).len() && table_order(self.accounts)[i]
                    == table_accounts(self.accounts)[client];
            assert(self.in_order()[i] == self@[client]);
        }
    }

    /// The number of accounts.
    pub fn len(&self) -> (n: usize)
        requires
            self.wf(),
        ensures
            n == self.in_order().len(),
    {
        self.accounts.len()
    }

    /// The account of `client`, if the client was seen.
    pub fn get(&self, client: ClientId) -> (found: Option<&ClientAccount>)
        requires
            self.wf(),
        ensures
            match found {
                Some(account) => self@.contains_key(client) && account@ == self@[client]
                    && account.wf(),
                None => !self@.contains_key(client),
            },
    {
        proof {
            self.accounts.lemma_layout();
        }
        match self.accounts.position(client as u32) {
            Some(i) => Some(self.accounts.value_at(i)),
            None => None,
        }
    }

    /// The `i`-th account in the order in which clients were first seen.
    pub fn account_at(&self, i: usize) -> (account: &ClientAccount)
        requires
            self.wf(),
            i < self.in_order().len(),
        ensures
            account@ == self.in_order()[i as int],
            account.wf(),
    {
        proof {
            self.accounts.lemma_layout();
            assert(self.accounts@.contains_key(self.accounts.keys()[i as int]));
        }
        self.accounts.value_at(i)
    }

    /// A balance sheet without accounts.
    pub fn new() -> (report: Self)
        ensures
            report.wf(),
            report@ == Map::<ClientId, AccountView>::empty(),
            report.in_order() == Seq::<AccountView>::empty(),
    {
        let report = Report { accounts: Table::new() };
        assert(report@ =~= Map::<ClientId, AccountView>::empty());
        assert(report.in_order() =~= Seq::<AccountView>::empty());
        report
    }

    /// The balance sheet as lines of text: the header line, then one line
    /// for each account, in the order in which clients were first seen.
    pub fn lines(&self) -> (lines: Vec<String>)
        requires
            self.wf(),
        ensures
            lines@.len() == self.in_order().len() + 1,
            lines@[0]@ == header_text(),
            forall|i: int|
                0 <= i < self.in_order().len() ==> (#[trigger] lines@[i + 1])@
                    == self.in_order()[i].row_text(),
    {
        let mut lines: Vec<String> = Vec::new();
        lines.push(
            String::from_str("client,     available,          held,         total,   locked"),
        );
        let mut i: usize = 0;
        while i < self.len()
            invariant
                self.wf(),
                i <= self.in_order().len(),
                lines@.len() == i + 1,
                lines@[0]@ == header_text(),
                forall|j: int|
                    0 <= j < i ==> (#[trigger] lines@[j + 1])@ == self.in_order()[j].row_text(),
            decreases self.in_order().len() - i,
        {
            lines.push(self.account_at(i).to_row());
            i += 1;
        }
        lines
    }

    /// Takes over every account of `other`; where both hold an account of a
    /// client, the one of `other` stays.
    pub fn absorb(&mut self, other: Report)
        requires
            old(self).wf(),
            other.wf(),
        ensures
            final(self).wf(),
            final(self)@ == old(self)@.union_prefer_right(other@),
    {
        self.accounts.absorb(other.accounts);
        assert(self@ =~= old(self)@.union_prefer_right(other@));
    }
}

/// An account manager takes a stream of records and hands back the balance
/// sheet that results.
pub trait AccountManager: Sized {
    /// Whether the manager is able to run.
    spec fn ready(&self) -> bool;

    /// The accounts that the manager starts from.
    spec fn starting_accounts(&self) -> Accounts;

    /// Applies the records in order and returns the account of every client.
    fn execute_transactions(self, transactions: Vec<TransactionRecord>) -> (report: Report)
        requires
            self.ready(),
        ensures
            report.wf(),
            report@ == run_from(self.starting_accounts(), records_of(transactions@)),
    ;
}

/// A manager that applies all records itself, one after the other.
pub struct STAccountManager {
    accounts: Table<ClientAccount>,
}

impl View for STAccountManager {
    type V = Accounts;

    closed spec fn view(&self) -> Accounts {
        table_accounts(self.accounts)
    }
}

impl STAccountManager {
    /// The manager holds a well-formed table of well-formed accounts.
    pub closed spec fn wf(&self) -> bool {
        table_wf(self.accounts)
    }

    /// A manager without accounts.
    pub fn new() -> (manager: Self)
        ensures
            manager.wf(),
            manager@ == Map::<ClientId, AccountView>::empty(),
    {
        let manager = STAccountManager { accounts: Table::new() };
        assert(manager@ =~= Map::<ClientId, AccountView>::empty());
        manager
    }

    /// The position of the account of `client`, which is created first where
    /// the client has not been seen.
    fn get_or_create_account(&mut self, client: ClientId) -> (i: usize)
        requires
            old(self).wf(),
        ensures
            final(self).wf(),
            i < final(self).accounts.values().len(),
            final(self).accounts.keys()[i as int] == client as u32,
            final(self).accounts.values()[i as int]@ == account_of(old(self)@, client),
            final(self).accounts.values()[i as int].wf(),
            final(self)@ == old(self)@.insert(client, account_of(old(self)@, client)),
    {
        proof {
            self.accounts.lemma_layout();
        }
        match self.accounts.position(client as u32) {
            Some(i) => {
                assert(self@ =~= old(self)@.insert(client, account_of(old(self)@, client)));
                i
            },
            None => {
                let i = self.accounts.push(client as u32, ClientAccount::new(client));
                proof {
                    self.accounts.lemma_layout();
                    assert(self.accounts@.contains_key(self.accounts.keys()[i as int]));
                    assert(self@ =~= old(self)@.insert(client, account_of(old(self)@, client)));
                }
                i
            },
        }
    }

    /// Applies one record to the account of its client, which is created
    /// where the client has not been seen. A record that is refused leaves
    /// that account as it was, and the reason is handed back.
    pub fn apply(&mut self, record: &TransactionRecord) -> (result: Result<(), TransactionError>)
        requires
            old(self).wf(),
        ensures
            final(self).wf(),
            final(self)@ == step(old(self)@, record@),
            match result {
                Ok(()) => account_of(old(self)@, record.client).apply(record@) is Ok,
                Err(e) => account_of(old(self)@, record.client).apply(record@) matches Err(err)
                    && err == e,
            },
    {
        let i = self.get_or_create_account(record.client);
        let ghost before = self.accounts;
        let account = self.accounts.value_at_mut(i);
        let result = account.apply(record);
        proof {
            self.accounts.lemma_update(&before, i as int);
            self.accounts.lemma_layout();
            before.lemma_layout();
            let next = account_of(old(self)@, record.client).after(record@);
            assert(self.accounts.values()[i as int]@ == next);
            assert(self.accounts@ == before@.insert(record.client as u32, self.accounts.values()[i as int]));
            assert forall|c: ClientId| self@.contains_key(c) <==> step(
                old(self)@,
                record@,
            ).contains_key(c) by {
                assert(table_accounts(before).contains_key(c) <==> before@.contains_key(c as u32));
            }
            assert forall|c: ClientId| self@.contains_key(c) implies self@[c] == step(
                old(self)@,
                record@,
            )[c] by {
                assert(table_accounts(before).contains_key(c) <==> before@.contains_key(c as u32));
                if c != record.client {
                    assert(table_accounts(before)[c] == before@[c as u32]@);
                }
            }
            assert(self@ =~= step(old(self)@, record@));
        }
        result
    }

    /// The balance sheet of the accounts as they stand.
    pub fn into_report(self) -> (report: Report)
        requires
            self.wf(),
        ensures
            report.wf(),
            report@ == self@,
    {
        Report { accounts: self.accounts }
    }
}

/// The first `n + 1` records are the first `n` followed by record `n`.
proof fn lemma_run_next(accounts: Accounts, records: Seq<Record>, n: int)
    requires
        0 <= n < records.len(),
    ensures
        run_from(accounts, records.take(n + 1)) == step(
            run_from(accounts, records.take(n)),
            records[n],
        ),
{
    assert(records.take(n + 1).drop_last() =~= records.take(n));
}

impl AccountManager for STAccountManager {
    open spec fn ready(&self) -> bool {
        self.wf()
    }

    open spec fn starting_accounts(&self) -> Accounts {
        self@
    }

    fn execute_transactions(self, transactions: Vec<TransactionRecord>) -> (report: Report) {
        let mut manager = self;
        let ghost records = records_of(transactions@);
        let mut i: usize = 0;
        while i < transactions.len()
            invariant
                manager.wf(),
                i <= transactions.len(),
                records == records_of(transactions@),
                manager@ == run_from(self@, records.take(i as int)),
            decreases transactions.len() - i,
        {
            proof {
                lemma_run_next(self@, records, i as int);
            }
            let _ = manager.apply(&transactions[i]);
            i += 1;
        }
        assert(records.take(i as int) =~= records);
        manager.into_report()
    }
}

/// A manager that routes each record to the shard that owns its client, lets
/// every shard apply its records, and merges the accounts of all shards.
pub struct MTAccountManager {
    num_threads: usize,
}

/// The shard that owns `client` when there are `shards` of them.
pub fn shard_index(client: ClientId, shards: usize) -> (i: usize)
    requires
        shards > 0,
    ensures
        i == shard_of(client, shards as nat),
        i < shards,
{
    (client as usize) % shards
}

/// Routes the records to `shards` queues: each queue holds the records of
/// the clients its shard owns, in input order.
pub fn dispatch(transactions: &Vec<TransactionRecord>, shards: usize) -> (queues: Vec<
    Vec<TransactionRecord>,
>)
    requires
        shards > 0,
    ensures
        queues.len() == shards,
        forall|i: int|
            0 <= i < shards ==> records_of((#[trigger] queues[i])@) == shard(
                records_of(transactions@),
                shards as nat,
                i as nat,
            ),
{
    let ghost records = records_of(transactions@);
    let mut queues: Vec<Vec<TransactionRecord>> = Vec::new();
    let mut made: usize = 0;
    while made < shards
        invariant
            made <= shards,
            queues.len() == made,
            forall|i: int| 0 <= i < made ==> (#[trigger] queues[i])@.len() == 0,
        decreases shards - made,
    {
        queues.push(Vec::new());
        made += 1;
    }
    proof {
        assert forall|i: int| 0 <= i < shards implies records_of((#[trigger] queues[i])@) == shard(
            records.take(0),
            shards as nat,
            i as nat,
        ) by {
            lemma_shard_last(records.take(0), shards as nat, i as nat);
            assert(records_of(queues[i]@) =~= Seq::<Record>::empty());
        }
    }
    let mut n: usize = 0;
    while n < transactions.len()
        invariant
            shards > 0,
            n <= transactions.len(),
            records == records_of(transactions@),
            queues.len() == shards,
            forall|i: int|
                0 <= i < shards ==> records_of((#[trigger] queues[i])@) == shard(
                    records.take(n as int),
                    shards as nat,
                    i as nat,
                ),
        decreases transactions.len() - n,
    {
        let record = transactions[n];
        let worker = shard_index(record.client, shards);
        let ghost before = queues;
        queues[worker].push(record);
        proof {
            assert(records.take(n + 1).drop_last() =~= records.take(n as int));
            assert forall|i: int| 0 <= i < shards implies records_of((#[trigger] queues[i])@)
                == shard(records.take(n + 1), shards as nat, i as nat) by {
                lemma_shard_last(records.take(n + 1), shards as nat, i as nat);
                if i == worker {
                    assert(records_of(queues[i]@) =~= records_of(before[i]@).push(record@));
                } else {
                    assert(queues[i] == before[i]);
                }
            }
        }
        n += 1;
    }
    proof {
        assert(records.take(n as int) =~= records);
    }
    queues
}

/// The union of the accounts of the first `n` shards.
spec fn merged_up_to(records: Seq<Record>, shards: nat, n: nat) -> Accounts {
    Map::new(
        |client: ClientId|
            shard_of(client, shards) < n && merged(records, shards).contains_key(client),
        |client: ClientId| merged(records, shards)[client],
    )
}

impl MTAccountManager {
    /// A manager with `num_threads` shards.
    pub fn new(num_threads: usize) -> (manager: Self)
        ensures
            manager.shards() == num_threads,
    {
        Self { num_threads }
    }

    /// The number of shards.
    pub closed spec fn shards(&self) -> nat {
        self.num_threads as nat
    }

    /// The number of shards.
    pub fn num_threads(&self) -> (n: usize)
        ensures
            n == self.shards(),
    {
        self.num_threads
    }
}

impl AccountManager for MTAccountManager {
    open spec fn ready(&self) -> bool {
        self.shards() > 0
    }

    open spec fn starting_accounts(&self) -> Accounts {
        Map::empty()
    }

    fn execute_transactions(self, transactions: Vec<TransactionRecord>) -> (report: Report) {
        let shards = self.num_threads;
        let ghost records = records_of(transactions@);
        let mut queues = dispatch(&transactions, shards);
        let mut full_report = Report::new();
        let mut i: usize = 0;
        proof {
            assert(full_report@ =~= merged_up_to(records, shards as nat, 0));
        }
        while i < shards
            invariant
                i <= shards,
                queues.len() == shards,
                full_report.wf(),
                full_report@ == merged_up_to(records, shards as nat, i as nat),
                forall|j: int|
                    i <= j < shards ==> records_of((#[trigger] queues[j])@) == shard(
                        records,
                        shards as nat,
                        j as nat,
                    ),
            decreases shards - i,
        {
            let mut queue: Vec<TransactionRecord> = Vec::new();
            core::mem::swap(&mut queue, &mut queues[i]);
            let report = STAccountManager::new().execute_transactions(queue);
            let ghost before = full_report@;
            full_report.absorb(report);
            proof {
                assert forall|client: ClientId| #[trigger]
                    report@.contains_key(client) implies shard_of(client, shards as nat) == i by {
                    lemma_shards_disjoint(records, shards as nat, i as nat, client);
                }
                assert(full_report@ =~= merged_up_to(records, shards as nat, (i + 1) as nat));
            }
            i += 1;
        }
        proof {
            lemma_sharding(records, shards as nat);
            assert(full_report@ =~= merged(records, shards as nat));
        }
        full_report
    }
}

/// How the records of one client grow with the last record.
pub proof fn lemma_for_client_last(records: Seq<Record>, client: ClientId)
    ensures
        records.len() == 0 ==> for_client(records, client) == Seq::<Record>::empty(),
        records.len() > 0 ==> for_client(records, client) == if records.last().client == client {
            for_client(records.drop_last(), client).push(records.last())
        } else {
            for_client(records.drop_last(), client)
        },
{
    reveal(Seq::filter);
}

/// How the records of one shard grow with the last record.
pub proof fn lemma_shard_last(records: Seq<Record>, shards: nat, i: nat)
    ensures
        records.len() == 0 ==> shard(records, shards, i) == Seq::<Record>::empty(),
        records.len() > 0 ==> shard(records, shards, i) == if shard_of(
            records.last().client,
            shards,
        ) == i {
            shard(records.drop_last(), shards, i).push(records.last())
        } else {
            shard(records.drop_last(), shards, i)
        },
{
    reveal(Seq::filter);
}

/// Each client's state machine sees exactly the records of that client, in
/// input order: after any sequence of records the account of a client is what
/// that client's records alone make of it, and a client has an account exactly
/// when it had one before or a record names it.
pub proof fn lemma_client_history(start: Accounts, records: Seq<Record>, client: ClientId)
    ensures
        account_of(run_from(start, records), client) == account_of(start, client).after_all(
            for_client(records, client),
        ),
        run_from(start, records).contains_key(client) <==> start.contains_key(client)
            || for_client(records, client).len() > 0,
    decreases records.len(),
{
    lemma_for_client_last(records, client);
    if records.len() > 0 {
        let earlier = records.drop_last();
        let last = records.last();
        lemma_client_history(start, earlier, client);
        if last.client == client {
            assert(for_client(earlier, client).push(last).drop_last() =~= for_client(
                earlier,
                client,
            ));
        }
    }
}

/// Routing keeps the records of a client together and in order: the shard
/// that owns the client holds all its records, and no other shard holds any.
pub proof fn lemma_shard_keeps_client(
    records: Seq<Record>,
    shards: nat,
    i: nat,
    client: ClientId,
)
    ensures
        for_client(shard(records, shards, i), client) == if shard_of(client, shards) == i {
            for_client(records, client)
        } else {
            Seq::<Record>::empty()
        },
    decreases records.len(),
{
    lemma_shard_last(records, shards, i);
    lemma_for_client_last(records, client);
    lemma_for_client_last(shard(records, shards, i), client);
    if records.len() > 0 {
        let earlier = records.drop_last();
        let last = records.last();
        lemma_shard_keeps_client(earlier, shards, i, client);
        if shard_of(last.client, shards) == i {
            assert(shard(earlier, shards, i).push(last).drop_last() =~= shard(earlier, shards, i));
        }
    }
}

/// No client has an account in two shards: a shard holds accounts of the
/// clients it owns only.
pub proof fn lemma_shards_disjoint(records: Seq<Record>, shards: nat, i: nat, client: ClientId)
    requires
        run(shard(records, shards, i)).contains_key(client),
    ensures
        shard_of(client, shards) == i,
{
    lemma_client_history(Map::empty(), shard(records, shards, i), client);
    lemma_shard_keeps_client(records, shards, i, client);
}

/// Partitioning preserves the outcome: the union of the accounts of all
/// shards is what the records give when one manager applies them all.
pub proof fn lemma_sharding(records: Seq<Record>, shards: nat)
    ensures
        merged(records, shards) == run(records),
{
    let whole = run(records);
    let union = merged(records, shards);
    assert forall|client: ClientId|
        (#[trigger] union.contains_key(client) <==> whole.contains_key(client)) && (
        whole.contains_key(client) ==> union[client] == whole[client]) by {
        let i = shard_of(client, shards);
        let part = run(shard(records, shards, i));
        lemma_client_history(Map::empty(), shard(records, shards, i), client);
        lemma_client_history(Map::empty(), records, client);
        lemma_shard_keeps_client(records, shards, i, client);
        assert(union.contains_key(client) <==> part.contains_key(client));
        if whole.contains_key(client) {
            assert(union[client] == part[client]);
            assert(account_of(part, client) == account_of(whole, client));
        }
    }
    assert(union =~= whole);
}

/// Two shard counts give the same accounts.
pub proof fn lemma_shard_count_irrelevant(records: Seq<Record>, shards: nat, other: nat)
    ensures
        merged(records, shards) == merged(records, other),
{
    lemma_sharding(records, shards);
    lemma_sharding(records, other);
}

/// Every run over well-formed records gives well-formed accounts, each filed
/// under its id.
pub proof fn lemma_run_wf(start: Accounts, records: Seq<Record>)
    requires
        accounts_wf(start),
        forall|i: int| 0 <= i < records.len() ==> (#[trigger] records[i]).wf(),
    ensures
        accounts_wf(run_from(start, records)),
    decreases records.len(),
{
    if records.len() > 0 {
        let earlier = records.drop_last();
        lemma_run_wf(start, earlier);
        let before = run_from(start, earlier);
        let last = records.last();
        crate::client_account::lemma_apply_wf(account_of(before, last.client), last);
    }
}

/// Held and available funds are never negative as long as no negative amount
/// is deposited: if no deposit record carries a negative amount, every
/// account is solvent after the run.
pub proof fn lemma_run_solvent(records: Seq<Record>, client: ClientId)
    requires
        forall|i: int| 0 <= i < records.len() ==> (#[trigger] records[i]).wf(),
        forall|i: int|
            0 <= i < records.len() && (#[trigger] records[i]).tr_type
                == crate::records::TransactionType::Deposit && records[i].amount is Some
                ==> records[i].amount.unwrap().units() >= 0,
        run(records).contains_key(client),
    ensures
        run(records)[client].solvent(),
    decreases records.len(),
{
    if records.len() > 0 {
        let earlier = records.drop_last();
        let last = records.last();
        let before = run(earlier);
        lemma_run_wf(Map::empty(), earlier);
        if before.contains_key(client) {
            lemma_run_solvent(earlier, client);
        }
        if last.client == client {
            crate::client_account::lemma_solvent(account_of(before, client), last);
        }
    }
}

/// Held funds are never negative as long as no deposit of a negative amount
/// is disputed: if every dispute record finds, in the account of its client,
/// either no such deposit or one of a non-negative amount, the held funds of
/// every account are non-negative after the run.
pub proof fn lemma_run_held_not_negative(records: Seq<Record>, client: ClientId)
    requires
        forall|i: int| 0 <= i < records.len() ==> (#[trigger] records[i]).wf(),
        forall|i: int|
            0 <= i < records.len() && (#[trigger] records[i]).tr_type
                == crate::records::TransactionType::Dispute && account_of(
                run(records.take(i)),
                records[i].client,
            ).ledger.contains_key(records[i].tx) ==> account_of(
                run(records.take(i)),
                records[i].client,
            ).ledger[records[i].tx].amount.units() >= 0,
        run(records).contains_key(client),
    ensures
        run(records)[client].held.units() >= 0,
    decreases records.len(),
{
    if records.len() > 0 {
        let n = records.len() - 1;
        let earlier = records.drop_last();
        let last = records.last();
        let before = run(earlier);
        assert(records.take(n) =~= earlier);
        lemma_run_wf(Map::empty(), earlier);
        assert forall|i: int|
            0 <= i < earlier.len() && (#[trigger] earlier[i]).tr_type
                == crate::records::TransactionType::Dispute && account_of(
                run(earlier.take(i)),
                earlier[i].client,
            ).ledger.contains_key(earlier[i].tx) implies account_of(
            run(earlier.take(i)),
            earlier[i].client,
        ).ledger[earlier[i].tx].amount.units() >= 0 by {
            assert(earlier.take(i) =~= records.take(i));
            assert(earlier[i] == records[i]);
        }
        if before.contains_key(client) {
            lemma_run_held_not_negative(earlier, client);
        }
        if last.client == client {
            assert(records[n] == last);
            crate::client_account::lemma_held_not_negative(account_of(before, client), last);
        }
    }
}

/// Once a chargeback has locked an account, nothing that follows changes it.
pub proof fn lemma_run_locked(earlier: Seq<Record>, later: Seq<Record>, client: ClientId)
    requires
        run(earlier).contains_key(client),
        run(earlier)[client].locked,
    ensures
        run(earlier + later).contains_key(client),
        run(earlier + later)[client] == run(earlier)[client],
{
    let all = earlier + later;
    lemma_client_history(Map::empty(), earlier, client);
    lemma_client_history(Map::empty(), all, client);
    lemma_client_history(run(earlier), later, client);
    lemma_run_append(Map::empty(), earlier, later);
    crate::client_account::lemma_locked_frozen(
        run(earlier)[client],
        for_client(later, client),
    );
}

/// Running two sequences one after the other is running their
/// concatenation.
pub proof fn lemma_run_append(start: Accounts, earlier: Seq<Record>, later: Seq<Record>)
    ensures
        run_from(start, earlier + later) == run_from(run_from(start, earlier), later),
    decreases later.len(),
{
    if later.len() == 0 {
        assert(earlier + later =~= earlier);
    } else {
        assert((earlier + later).drop_last() =~= earlier + later.drop_last());
        lemma_run_append(start, earlier, later.drop_last());
    }
}

/// The same records give the same accounts, whoever applies them: what a
/// manager returns is a function of its records alone.
pub proof fn lemma_run_deterministic(records: Seq<Record>, first: Accounts, second: Accounts)
    requires
        first == run(records),
        second == run(records),
    ensures
        first == second,
{
}

} // verus!
