//! The account of one client: balances, the ledger of its deposits and the
//! dispute life cycle of each of them.

use crate::amount::{decimal_column_text, lemma_difference_exact, lemma_sum_exact, Amount, Dec};
use vstd::string::StringExecFns;
use crate::records::{ClientId, Record, TransactionId, TransactionRecord, TransactionType};
use crate::table::Table;
use vstd::prelude::*;

verus! {

/// How far the dispute of a deposit has come.
#[derive(Clone, Copy, Debug, PartialEq, Eq, Structural)]
pub enum DisputeProgress {
    /// The deposit is not disputed.
    Idle,
    /// A dispute is open.
    InProgress,
    /// The dispute was resolved or charged back.
    Done,
}

impl DisputeProgress {
    /// The place of a state on the path `Idle`, `InProgress`, `Done`.
    pub open spec fn rank(self) -> int {
        match self {
            DisputeProgress::Idle => 0,
            DisputeProgress::InProgress => 1,
            DisputeProgress::Done => 2,
        }
    }
}

/// Why a transaction was refused. A refused transaction leaves the account as
/// it was.
#[derive(Clone, Copy, Debug, PartialEq, Eq, Structural)]
pub enum TransactionError {
    /// A deposit or withdrawal names a transaction that the ledger holds.
    DuplicateTransaction,
    /// A withdrawal asks for more than is available.
    InsufficientFunds,
    /// A dispute, resolve or chargeback names a transaction that is no
    /// deposit of this account.
    UnknownTransaction,
    /// A dispute names a deposit that is or was disputed already.
    AlreadyDisputed,
    /// A dispute names a deposit whose amount exceeds what is available.
    InsufficientFundsForDispute,
    /// A resolve or chargeback names a deposit without an open dispute.
    NotDisputed,
    /// A resolve or chargeback names a deposit whose amount exceeds what is
    /// held.
    InsufficientHeldFunds,
    /// A deposit or withdrawal record carries no amount.
    MissingAmount,
    /// The account is locked.
    AccountLocked,
    /// A balance would leave the range that an amount can hold.
    AmountOutOfRange,
}

impl TransactionError {
    /// The sentence that says what went wrong.
    pub open spec fn message_text(self) -> Seq<char> {
        match self {
            TransactionError::DuplicateTransaction => "Transaction already exists"@,
            TransactionError::InsufficientFunds => "Insufficient funds"@,
            TransactionError::UnknownTransaction => "Transaction does not exist"@,
            TransactionError::AlreadyDisputed => "Dispute already in progress or done"@,
            TransactionError::InsufficientFundsForDispute => "Not enough funds to open a dispute"@,
            TransactionError::NotDisputed => "Cannot resolve a transaction that is not disputed"@,
            TransactionError::InsufficientHeldFunds => "Not enough held funds to close a dispute"@,
            TransactionError::MissingAmount => "Transaction failed due to missing amount"@,
            TransactionError::AccountLocked => "Account is locked and cannot accept more transactions"@,
            TransactionError::AmountOutOfRange => "Balance out of range"@,
        }
    }

    /// A sentence for the log.
    pub fn message(&self) -> (text: &'static str)
        ensures
            text@ == self.message_text(),
    {
        match self {
            TransactionError::DuplicateTransaction => "Transaction already exists",
            TransactionError::InsufficientFunds => "Insufficient funds",
            TransactionError::UnknownTransaction => "Transaction does not exist",
            TransactionError::AlreadyDisputed => "Dispute already in progress or done",
            TransactionError::InsufficientFundsForDispute => "Not enough funds to open a dispute",
            TransactionError::NotDisputed => "Cannot resolve a transaction that is not disputed",
            TransactionError::InsufficientHeldFunds => "Not enough held funds to close a dispute",
            TransactionError::MissingAmount => "Transaction failed due to missing amount",
            TransactionError::AccountLocked => "Account is locked and cannot accept more transactions",
            TransactionError::AmountOutOfRange => "Balance out of range",
        }
    }
}

/// A deposit as the ledger remembers it.
#[derive(Clone, Copy, Debug)]
pub struct TransactionHist {
    state: DisputeProgress,
    amount: Amount,
}

/// The mathematical model of a ledger entry.
pub struct Entry {
    pub state: DisputeProgress,
    pub amount: Dec,
}

impl View for TransactionHist {
    type V = Entry;

    closed spec fn view(&self) -> Entry {
        Entry { state: self.state, amount: self.amount@ }
    }
}

impl TransactionHist {
    /// The entry of a fresh deposit: not disputed.
    pub fn new(amount: Amount) -> (entry: Self)
        ensures
            entry@ == (Entry { state: DisputeProgress::Idle, amount: amount@ }),
    {
        Self { state: DisputeProgress::Idle, amount }
    }

    /// The same deposit in another state.
    fn with_state(&self, state: DisputeProgress) -> (entry: Self)
        ensures
            entry@ == (Entry { state, amount: self@.amount }),
    {
        Self { state, amount: self.amount }
    }
}

/// The mathematical model of a [`ClientAccount`].
pub struct AccountView {
    pub id: ClientId,
    pub available: Dec,
    pub held: Dec,
    pub locked: bool,
    pub ledger: Map<TransactionId, Entry>,
}

/// Whether an account can carry the two balances: each fits an [`Amount`],
/// and so does their total.
pub open spec fn balances_fit(available: Dec, held: Dec) -> bool {
    available.mantissa_ok() && held.mantissa_ok() && available.sum(held).mantissa_ok()
}

impl AccountView {
    /// The account of a client that has not been seen before.
    pub open spec fn fresh(id: ClientId) -> AccountView {
        AccountView {
            id,
            available: Dec::zero(),
            held: Dec::zero(),
            locked: false,
            ledger: Map::empty(),
        }
    }

    /// Balances and ledger amounts are amounts, and the total is one too.
    pub open spec fn wf(self) -> bool {
        &&& self.available.wf()
        &&& self.held.wf()
        &&& balances_fit(self.available, self.held)
        &&& forall|tx: TransactionId| #[trigger]
            self.ledger.contains_key(tx) ==> self.ledger[tx].amount.wf()
    }

    /// Available plus held.
    pub open spec fn total(self) -> Dec {
        self.available.sum(self.held)
    }

    /// The account with other balances.
    pub open spec fn with_balances(self, available: Dec, held: Dec) -> AccountView {
        AccountView { available, held, ..self }
    }

    /// The account with the dispute of `tx` moved to `state`.
    pub open spec fn with_state(self, tx: TransactionId, state: DisputeProgress) -> AccountView {
        AccountView {
            ledger: self.ledger.insert(tx, Entry { state, amount: self.ledger[tx].amount }),
            ..self
        }
    }

    /// A deposit: refused where the ledger holds `tx`; otherwise `amount` is
    /// added to the available funds and `tx` enters the ledger, undisputed.
    pub open spec fn deposit(self, tx: TransactionId, amount: Dec) -> Result<
        AccountView,
        TransactionError,
    > {
        let available = self.available.sum(amount);
        if self.ledger.contains_key(tx) {
            Err(TransactionError::DuplicateTransaction)
        } else if !balances_fit(available, self.held) {
            Err(TransactionError::AmountOutOfRange)
        } else {
            Ok(
                AccountView {
                    available,
                    ledger: self.ledger.insert(
                        tx,
                        Entry { state: DisputeProgress::Idle, amount },
                    ),
                    ..self
                },
            )
        }
    }

    /// A withdrawal: refused where the ledger holds `tx` or `amount` exceeds
    /// the available funds; otherwise `amount` leaves the available funds.
    /// The ledger does not record it.
    pub open spec fn withdraw(self, tx: TransactionId, amount: Dec) -> Result<
        AccountView,
        TransactionError,
    > {
        let available = self.available.difference(amount);
        if self.ledger.contains_key(tx) {
            Err(TransactionError::DuplicateTransaction)
        } else if amount.units() > self.available.units() {
            Err(TransactionError::InsufficientFunds)
        } else if !balances_fit(available, self.held) {
            Err(TransactionError::AmountOutOfRange)
        } else {
            Ok(self.with_balances(available, self.held))
        }
    }

    /// A dispute: refused where `tx` is no deposit of this account, where it
    /// is or was disputed, or where its amount exceeds the available funds;
    /// otherwise the amount moves from available to held.
    pub open spec fn dispute(self, tx: TransactionId) -> Result<AccountView, TransactionError> {
        let amount = self.ledger[tx].amount;
        let available = self.available.difference(amount);
        let held = self.held.sum(amount);
        if !self.ledger.contains_key(tx) {
            Err(TransactionError::UnknownTransaction)
        } else if self.ledger[tx].state != DisputeProgress::Idle {
            Err(TransactionError::AlreadyDisputed)
        } else if amount.units() > self.available.units() {
            Err(TransactionError::InsufficientFundsForDispute)
        } else if !balances_fit(available, held) {
            Err(TransactionError::AmountOutOfRange)
        } else {
            Ok(self.with_balances(available, held).with_state(tx, DisputeProgress::InProgress))
        }
    }

    /// A resolve: refused where `tx` is no deposit of this account, where no
    /// dispute of it is open, or where its amount exceeds the held funds;
    /// otherwise the amount moves back from held to available.
    pub open spec fn resolve(self, tx: TransactionId) -> Result<AccountView, TransactionError> {
        let amount = self.ledger[tx].amount;
        let available = self.available.sum(amount);
        let held = self.held.difference(amount);
        if !self.ledger.contains_key(tx) {
            Err(TransactionError::UnknownTransaction)
        } else if self.ledger[tx].state != DisputeProgress::InProgress {
            Err(TransactionError::NotDisputed)
        } else if amount.units() > self.held.units() {
            Err(TransactionError::InsufficientHeldFunds)
        } else if !balances_fit(available, held) {
            Err(TransactionError::AmountOutOfRange)
        } else {
            Ok(self.with_balances(available, held).with_state(tx, DisputeProgress::Done))
        }
    }

    /// A chargeback: refused as a resolve is; otherwise the amount leaves the
    /// held funds and the account is locked.
    pub open spec fn chargeback(self, tx: TransactionId) -> Result<AccountView, TransactionError> {
        let amount = self.ledger[tx].amount;
        let held = self.held.difference(amount);
        if !self.ledger.contains_key(tx) {
            Err(TransactionError::UnknownTransaction)
        } else if self.ledger[tx].state != DisputeProgress::InProgress {
            Err(TransactionError::NotDisputed)
        } else if amount.units() > self.held.units() {
            Err(TransactionError::InsufficientHeldFunds)
        } else if !balances_fit(self.available, held) {
            Err(TransactionError::AmountOutOfRange)
        } else {
            Ok(
                AccountView { locked: true, ..self.with_balances(self.available, held) }.with_state(
                    tx,
                    DisputeProgress::Done,
                ),
            )
        }
    }

    /// What a record does to the account: nothing where the account is
    /// locked or a deposit or withdrawal lacks its amount, otherwise what the
    /// operation it names does.
    pub open spec fn apply(self, record: Record) -> Result<AccountView, TransactionError> {
        if self.locked {
            Err(TransactionError::AccountLocked)
        } else {
            match record.tr_type {
                TransactionType::Deposit => match record.amount {
                    Some(amount) => self.deposit(record.tx, amount),
                    None => Err(TransactionError::MissingAmount),
                },
                TransactionType::Withdrawal => match record.amount {
                    Some(amount) => self.withdraw(record.tx, amount),
                    None => Err(TransactionError::MissingAmount),
                },
                TransactionType::Dispute => self.dispute(record.tx),
                TransactionType::Resolve => self.resolve(record.tx),
                TransactionType::ChargeBack => self.chargeback(record.tx),
            }
        }
    }

    /// The account after the record: changed where the record is accepted,
    /// as it was where it is refused.
    pub open spec fn after(self, record: Record) -> AccountView {
        match self.apply(record) {
            Ok(next) => next,
            Err(_) => self,
        }
    }

    /// The account after a sequence of records, applied first to last.
    pub open spec fn after_all(self, records: Seq<Record>) -> AccountView
        decreases records.len(),
    {
        if records.len() == 0 {
            self
        } else {
            self.after_all(records.drop_last()).after(records.last())
        }
    }

    /// No balance is negative and no deposit in the ledger is.
    pub open spec fn solvent(self) -> bool {
        &&& self.available.units() >= 0
        &&& self.held.units() >= 0
        &&& forall|tx: TransactionId| #[trigger]
            self.ledger.contains_key(tx) ==> self.ledger[tx].amount.units() >= 0
    }

    /// The ledger of `next` continues the ledger of `self`: every deposit is
    /// still there with its amount, and its dispute has stayed where it was
    /// or moved one step along `Idle`, `InProgress`, `Done`; a deposit that
    /// is new starts at `Idle`.
    pub open spec fn ledger_continued_by(self, next: AccountView) -> bool {
        &&& forall|tx: TransactionId| #[trigger]
            self.ledger.contains_key(tx) ==> {
                &&& next.ledger.contains_key(tx)
                &&& next.ledger[tx].amount == self.ledger[tx].amount
                &&& self.ledger[tx].state.rank() <= next.ledger[tx].state.rank()
                    <= self.ledger[tx].state.rank() + 1
            }
        &&& forall|tx: TransactionId| #[trigger]
            next.ledger.contains_key(tx) && !self.ledger.contains_key(tx)
                ==> next.ledger[tx].state == DisputeProgress::Idle
    }
}

/// A record that is accepted leaves the account well formed.
pub proof fn lemma_apply_wf(account: AccountView, record: Record)
    requires
        account.wf(),
        record.wf(),
    ensures
        account.after(record).wf(),
        account.after(record).id == account.id,
{
    let a = account.available;
    let h = account.held;
    if account.ledger.contains_key(record.tx) {
        let x = account.ledger[record.tx].amount;
        lemma_sum_exact(a, x);
        lemma_sum_exact(h, x);
        lemma_difference_exact(a, x);
        lemma_difference_exact(h, x);
    }
    if record.amount is Some {
        let x = record.amount.unwrap();
        lemma_sum_exact(a, x);
        lemma_difference_exact(a, x);
    }
}

/// The total of an account is its available funds plus its held funds,
/// exactly.
pub proof fn lemma_total_exact(account: AccountView)
    requires
        account.wf(),
    ensures
        account.total().units() == account.available.units() + account.held.units(),
        account.total().wf(),
{
    lemma_sum_exact(account.available, account.held);
}

/// Held funds never become negative, nor do available funds, as long as no
/// negative amount is deposited: a record keeps a solvent account solvent
/// unless it is a deposit of a negative amount.
pub proof fn lemma_solvent(account: AccountView, record: Record)
    requires
        account.wf(),
        record.wf(),
        account.solvent(),
        record.tr_type == TransactionType::Deposit ==> (record.amount matches Some(amount)
            ==> amount.units() >= 0),
    ensures
        account.after(record).solvent(),
{
    let a = account.available;
    let h = account.held;
    if account.ledger.contains_key(record.tx) {
        let x = account.ledger[record.tx].amount;
        lemma_sum_exact(a, x);
        lemma_sum_exact(h, x);
        lemma_difference_exact(a, x);
        lemma_difference_exact(h, x);
    }
    if record.amount is Some {
        let x = record.amount.unwrap();
        lemma_sum_exact(a, x);
        lemma_difference_exact(a, x);
    }
}

/// Held funds stay non-negative under every record but one kind: the dispute
/// of a deposit of a negative amount.
pub proof fn lemma_held_not_negative(account: AccountView, record: Record)
    requires
        account.wf(),
        record.wf(),
        account.held.units() >= 0,
        record.tr_type == TransactionType::Dispute && account.ledger.contains_key(record.tx)
            ==> account.ledger[record.tx].amount.units() >= 0,
    ensures
        account.after(record).held.units() >= 0,
{
    if account.ledger.contains_key(record.tx) {
        let x = account.ledger[record.tx].amount;
        lemma_sum_exact(account.held, x);
        lemma_difference_exact(account.held, x);
    }
}

/// Whatever the amounts, a resolve or a chargeback that is accepted leaves
/// held funds that are not negative, and a withdrawal or a dispute that is
/// accepted leaves available funds that are not negative.
pub proof fn lemma_checked_balances(account: AccountView, tx: TransactionId, amount: Dec)
    requires
        account.wf(),
        amount.wf(),
    ensures
        account.resolve(tx) matches Ok(next) ==> next.held.units() >= 0,
        account.chargeback(tx) matches Ok(next) ==> next.held.units() >= 0,
        account.withdraw(tx, amount) matches Ok(next) ==> next.available.units() >= 0,
        account.dispute(tx) matches Ok(next) ==> next.available.units() >= 0,
{
    if account.ledger.contains_key(tx) {
        let x = account.ledger[tx].amount;
        lemma_difference_exact(account.available, x);
        lemma_difference_exact(account.held, x);
    }
    lemma_difference_exact(account.available, amount);
}

/// The dispute of every deposit follows the path `Idle`, `InProgress`,
/// `Done`: one record moves it one step forward at most and never back, and
/// no deposit leaves the ledger or changes its amount.
pub proof fn lemma_dispute_path(account: AccountView, record: Record)
    ensures
        account.ledger_continued_by(account.after(record)),
{
}

/// Over any sequence of records the dispute of a deposit never moves back,
/// and no deposit leaves the ledger or changes its amount.
pub proof fn lemma_dispute_path_all(account: AccountView, records: Seq<Record>)
    ensures
        forall|tx: TransactionId| #[trigger]
            account.ledger.contains_key(tx) ==> {
                &&& account.after_all(records).ledger.contains_key(tx)
                &&& account.after_all(records).ledger[tx].amount == account.ledger[tx].amount
                &&& account.ledger[tx].state.rank() <= account.after_all(
                    records,
                ).ledger[tx].state.rank()
            },
    decreases records.len(),
{
    if records.len() > 0 {
        lemma_dispute_path_all(account, records.drop_last());
        lemma_dispute_path(account.after_all(records.drop_last()), records.last());
    }
}

/// A chargeback that is accepted locks the account.
pub proof fn lemma_chargeback_locks(account: AccountView, tx: TransactionId)
    ensures
        account.chargeback(tx) matches Ok(next) ==> next.locked,
{
}

/// A locked account is frozen: whatever records follow, it stays as it is.
pub proof fn lemma_locked_frozen(account: AccountView, records: Seq<Record>)
    requires
        account.locked,
    ensures
        account.after_all(records) == account,
    decreases records.len(),
{
    if records.len() > 0 {
        lemma_locked_frozen(account, records.drop_last());
    }
}

/// A transaction that the ledger holds is refused as a duplicate when a
/// deposit or a withdrawal names it again.
pub proof fn lemma_duplicate_refused(account: AccountView, tx: TransactionId, amount: Dec)
    requires
        account.ledger.contains_key(tx),
    ensures
        account.deposit(tx, amount) == Err::<AccountView, TransactionError>(
            TransactionError::DuplicateTransaction,
        ),
        account.withdraw(tx, amount) == Err::<AccountView, TransactionError>(
            TransactionError::DuplicateTransaction,
        ),
{
}

/// Once a deposit is accepted, a later deposit or withdrawal under the same
/// transaction id is refused, whatever records came between.
pub proof fn lemma_second_occurrence_refused(
    account: AccountView,
    tx: TransactionId,
    first: Dec,
    between: Seq<Record>,
    second: Dec,
)
    requires
        account.deposit(tx, first) is Ok,
    ensures
        account.deposit(tx, first).unwrap().after_all(between).deposit(tx, second) == Err::<
            AccountView,
            TransactionError,
        >(TransactionError::DuplicateTransaction),
        account.deposit(tx, first).unwrap().after_all(between).withdraw(tx, second) == Err::<
            AccountView,
            TransactionError,
        >(TransactionError::DuplicateTransaction),
{
    let after_first = account.deposit(tx, first).unwrap();
    lemma_dispute_path_all(after_first, between);
    assert(after_first.ledger.contains_key(tx));
    lemma_duplicate_refused(after_first.after_all(between), tx, second);
}

/// The account of one client.
pub struct ClientAccount {
    id: ClientId,
    available: Amount,
    held: Amount,
    locked: bool,
    transaction_history: Table<TransactionHist>,
}

impl View for ClientAccount {
    type V = AccountView;

    closed spec fn view(&self) -> AccountView {
        AccountView {
            id: self.id,
            available: self.available@,
            held: self.held@,
            locked: self.locked,
            ledger: Map::new(
                |tx: TransactionId| self.transaction_history@.contains_key(tx),
                |tx: TransactionId| self.transaction_history@[tx]@,
            ),
        }
    }
}

impl ClientAccount {
    /// The ledger is a well-formed table, and the model of the account is
    /// well formed.
    pub closed spec fn wf(&self) -> bool {
        &&& self.transaction_history.wf()
        &&& self@.wf()
    }

    /// The model of a well-formed account is well formed.
    pub proof fn lemma_view_wf(&self)
        requires
            self.wf(),
        ensures
            self@.wf(),
    {
    }

    /// A new account without funds.
    pub fn new(id: ClientId) -> (account: Self)
        ensures
            account.wf(),
            account@ == AccountView::fresh(id),
    {
        let account = Self {
            id,
            available: Amount::zero(),
            held: Amount::zero(),
            locked: false,
            transaction_history: Table::new(),
        };
        assert(account@.ledger =~= Map::<TransactionId, Entry>::empty());
        account
    }

    /// The client that owns the account.
    pub fn id(&self) -> (id: ClientId)
        ensures
            id == self@.id,
    {
        self.id
    }

    /// The funds available for withdrawal.
    pub fn available(&self) -> (amount: Amount)
        ensures
            amount@ == self@.available,
    {
        self.available
    }

    /// The funds held by open disputes.
    pub fn held(&self) -> (amount: Amount)
        ensures
            amount@ == self@.held,
    {
        self.held
    }

    /// Available plus held funds.
    pub fn total(&self) -> (amount: Amount)
        requires
            self.wf(),
        ensures
            amount@ == self@.total(),
            amount@.units() == self@.available.units() + self@.held.units(),
    {
        match self.available.checked_add(&self.held) {
            Some(total) => total,
            None => {
                proof {
                    assert(false);
                }
                self.available
            },
        }
    }

    /// Whether the account is frozen.
    pub fn is_locked(&self) -> (locked: bool)
        ensures
            locked == self@.locked,
    {
        self.locked
    }

    /// How far the dispute of deposit `tx` has come; `None` where `tx` is no
    /// deposit of this account.
    pub fn dispute_progress(&self, tx: TransactionId) -> (state: Option<DisputeProgress>)
        requires
            self.wf(),
        ensures
            match state {
                Some(s) => self@.ledger.contains_key(tx) && self@.ledger[tx].state == s,
                None => !self@.ledger.contains_key(tx),
            },
    {
        match self.transaction_history.get(tx) {
            Some(entry) => Some(entry.state),
            None => None,
        }
    }

    /// The two balances if the account can carry them.
    fn fit(available: Option<Amount>, held: Option<Amount>) -> (balances: Option<(Amount, Amount)>)
        ensures
            match balances {
                Some((a, h)) => available == Some(a) && held == Some(h) && balances_fit(a@, h@),
                None => available is None || held is None || !balances_fit(
                    available.unwrap()@,
                    held.unwrap()@,
                ),
            },
    {
        match (available, held) {
            (Some(a), Some(h)) => {
                proof {
                    use_type_invariant(a);
                    use_type_invariant(h);
                }
                if a.checked_add(&h).is_some() {
                    Some((a, h))
                } else {
                    None
                }
            },
            _ => None,
        }
    }

    /// Deposits `amount` under the transaction id `tx`.
    pub fn deposit(&mut self, tx: TransactionId, amount: Amount) -> (result: Result<
        (),
        TransactionError,
    >)
        requires
            old(self).wf(),
        ensures
            final(self).wf(),
            match result {
                Ok(()) => old(self)@.deposit(tx, amount@) matches Ok(next) && next == final(self)@,
                Err(e) => old(self)@.deposit(tx, amount@) matches Err(err) && err == e && final(self)@ == old(self)@,
            },
    {
        proof {
            use_type_invariant(amount);
        }
        if self.transaction_history.position(tx).is_some() {
            return Err(TransactionError::DuplicateTransaction);
        }
        let available = self.available.checked_add(&amount);
        match Self::fit(available, Some(self.held)) {
            None => Err(TransactionError::AmountOutOfRange),
            Some((available, _)) => {
                self.available = available;
                self.transaction_history.push(tx, TransactionHist::new(amount));
                proof {
                    assert(final(self)@.ledger =~= old(self)@.ledger.insert(
                        tx,
                        Entry { state: DisputeProgress::Idle, amount: amount@ },
                    ));
                }
                Ok(())
            },
        }
    }

    /// Withdraws `amount` under the transaction id `tx`.
    pub fn withdraw(&mut self, tx: TransactionId, amount: Amount) -> (result: Result<
        (),
        TransactionError,
    >)
        requires
            old(self).wf(),
        ensures
            final(self).wf(),
            match result {
                Ok(()) => old(self)@.withdraw(tx, amount@) matches Ok(next) && next == final(self)@,
                Err(e) => old(self)@.withdraw(tx, amount@) matches Err(err) && err == e && final(self)@ == old(self)@,
            },
    {
        proof {
            use_type_invariant(amount);
        }
        if self.transaction_history.position(tx).is_some() {
            return Err(TransactionError::DuplicateTransaction);
        }
        if amount.gt(&self.available) {
            return Err(TransactionError::InsufficientFunds);
        }
        let available = self.available.checked_sub(&amount);
        match Self::fit(available, Some(self.held)) {
            None => Err(TransactionError::AmountOutOfRange),
            Some((available, _)) => {
                self.available = available;
                Ok(())
            },
        }
    }

    /// Moves the ledger entry at position `i` to `state` and sets the
    /// balances.
    fn settle(&mut self, i: usize, state: DisputeProgress, available: Amount, held: Amount)
        requires
            old(self).wf(),
            i < old(self).transaction_history.keys().len(),
            balances_fit(available@, held@),
        ensures
            final(self).wf(),
            final(self)@ == old(self)@.with_balances(available@, held@).with_state(
                old(self).transaction_history.keys()[i as int],
                state,
            ),
            final(self).locked == old(self).locked,
    {
        proof {
            use_type_invariant(available);
            use_type_invariant(held);
            self.transaction_history.lemma_layout();
        }
        let entry = self.transaction_history.value_at(i).with_state(state);
        self.available = available;
        self.held = held;
        self.transaction_history.set(i, entry);
        proof {
            let tx = old(self).transaction_history.keys()[i as int];
            assert(final(self)@.ledger =~= old(self)@.ledger.insert(
                tx,
                Entry { state, amount: old(self)@.ledger[tx].amount },
            ));
        }
    }

    /// Opens a dispute of the deposit `tx`.
    pub fn dispute(&mut self, tx: TransactionId) -> (result: Result<(), TransactionError>)
        requires
            old(self).wf(),
        ensures
            final(self).wf(),
            match result {
                Ok(()) => old(self)@.dispute(tx) matches Ok(next) && next == final(self)@,
                Err(e) => old(self)@.dispute(tx) matches Err(err) && err == e && final(self)@
                    == old(self)@,
            },
    {
        let i = match self.transaction_history.position(tx) {
            Some(i) => i,
            None => { return Err(TransactionError::UnknownTransaction); },
        };
        let entry = *self.transaction_history.value_at(i);
        if entry.state != DisputeProgress::Idle {
            return Err(TransactionError::AlreadyDisputed);
        }
        if entry.amount.gt(&self.available) {
            return Err(TransactionError::InsufficientFundsForDispute);
        }
        let available = self.available.checked_sub(&entry.amount);
        let held = self.held.checked_add(&entry.amount);
        match Self::fit(available, held) {
            None => Err(TransactionError::AmountOutOfRange),
            Some((available, held)) => {
                self.settle(i, DisputeProgress::InProgress, available, held);
                Ok(())
            },
        }
    }

    /// Closes the dispute of the deposit `tx` in the client's favour.
    pub fn resolve(&mut self, tx: TransactionId) -> (result: Result<(), TransactionError>)
        requires
            old(self).wf(),
        ensures
            final(self).wf(),
            match result {
                Ok(()) => old(self)@.resolve(tx) matches Ok(next) && next == final(self)@,
                Err(e) => old(self)@.resolve(tx) matches Err(err) && err == e && final(self)@
                    == old(self)@,
            },
    {
        let i = match self.transaction_history.position(tx) {
            Some(i) => i,
            None => { return Err(TransactionError::UnknownTransaction); },
        };
        let entry = *self.transaction_history.value_at(i);
        if entry.state != DisputeProgress::InProgress {
            return Err(TransactionError::NotDisputed);
        }
        if entry.amount.gt(&self.held) {
            return Err(TransactionError::InsufficientHeldFunds);
        }
        let available = self.available.checked_add(&entry.amount);
        let held = self.held.checked_sub(&entry.amount);
        match Self::fit(available, held) {
            None => Err(TransactionError::AmountOutOfRange),
            Some((available, held)) => {
                self.settle(i, DisputeProgress::Done, available, held);
                Ok(())
            },
        }
    }

    /// Closes the dispute of the deposit `tx` by reversing the deposit, and
    /// locks the account.
    pub fn chargeback(&mut self, tx: TransactionId) -> (result: Result<(), TransactionError>)
        requires
            old(self).wf(),
        ensures
            final(self).wf(),
            match result {
                Ok(()) => old(self)@.chargeback(tx) matches Ok(next) && next == final(self)@,
                Err(e) => old(self)@.chargeback(tx) matches Err(err) && err == e && final(self)@
                    == old(self)@,
            },
    {
        let i = match self.transaction_history.position(tx) {
            Some(i) => i,
            None => { return Err(TransactionError::UnknownTransaction); },
        };
        let entry = *self.transaction_history.value_at(i);
        if entry.state != DisputeProgress::InProgress {
            return Err(TransactionError::NotDisputed);
        }
        if entry.amount.gt(&self.held) {
            return Err(TransactionError::InsufficientHeldFunds);
        }
        let held = self.held.checked_sub(&entry.amount);
        match Self::fit(Some(self.available), held) {
            None => Err(TransactionError::AmountOutOfRange),
            Some((available, held)) => {
                self.settle(i, DisputeProgress::Done, available, held);
                self.locked = true;
                Ok(())
            },
        }
    }

    /// Applies one record: refuses it where the account is locked or a
    /// deposit or withdrawal lacks its amount, and otherwise performs the
    /// operation that the record names.
    pub fn apply(&mut self, record: &TransactionRecord) -> (result: Result<(), TransactionError>)
        requires
            old(self).wf(),
        ensures
            final(self).wf(),
            final(self)@ == old(self)@.after(record@),
            final(self)@.id == old(self)@.id,
            match result {
                Ok(()) => old(self)@.apply(record@) is Ok,
                Err(e) => old(self)@.apply(record@) matches Err(err) && err == e,
            },
    {
        if self.locked {
            return Err(TransactionError::AccountLocked);
        }
        match record.tr_type {
            TransactionType::Deposit => match record.amount {
                Some(amount) => self.deposit(record.tx, amount),
                None => Err(TransactionError::MissingAmount),
            },
            TransactionType::Withdrawal => match record.amount {
                Some(amount) => self.withdraw(record.tx, amount),
                None => Err(TransactionError::MissingAmount),
            },
            TransactionType::Dispute => self.dispute(record.tx),
            TransactionType::Resolve => self.resolve(record.tx),
            TransactionType::ChargeBack => self.chargeback(record.tx),
        }
    }

    /// One line of the balance sheet: the id, the available, held and total
    /// funds, each with four fractional digits in a column of its own, and
    /// whether the account is locked.
    pub fn to_row(&self) -> (row: String)
        requires
            self.wf(),
        ensures
            row@ == self@.row_text(),
    {
        proof {
            crate::amount::lemma_sum_exact(self@.available, self@.held);
        }
        let mut row = id_column(self.id);
        row.append(", ");
        row.append(self.available.to_column().as_str());
        row.append(", ");
        row.append(self.held.to_column().as_str());
        row.append(", ");
        row.append(self.total().to_column().as_str());
        row.append(",     ");
        row.append(if self.locked {
            "true"
        } else {
            "false"
        });
        row
    }
}

/// The character that writes a digit.
pub open spec fn digit_text(digit: nat) -> Seq<char> {
    if digit == 0 {
        "0"@
    } else if digit == 1 {
        "1"@
    } else if digit == 2 {
        "2"@
    } else if digit == 3 {
        "3"@
    } else if digit == 4 {
        "4"@
    } else if digit == 5 {
        "5"@
    } else if digit == 6 {
        "6"@
    } else if digit == 7 {
        "7"@
    } else if digit == 8 {
        "8"@
    } else {
        "9"@
    }
}

/// A number in base ten, without leading zeros.
pub open spec fn number_text(n: nat) -> Seq<char>
    decreases n,
{
    if n < 10 {
        digit_text(n)
    } else {
        number_text(n / 10) + digit_text(n % 10)
    }
}

/// The blanks that bring a client id to a width of six.
pub open spec fn id_padding(id: ClientId) -> Seq<char> {
    if id < 10 {
        "     "@
    } else if id < 100 {
        "    "@
    } else if id < 1000 {
        "   "@
    } else if id < 10000 {
        "  "@
    } else {
        " "@
    }
}

/// A client id right-aligned in a column of width six.
pub open spec fn id_column_text(id: ClientId) -> Seq<char> {
    id_padding(id) + number_text(id as nat)
}

/// The text of a digit.
fn digit_str(digit: u16) -> (text: &'static str)
    requires
        digit < 10,
    ensures
        text@ == digit_text(digit as nat),
{
    if digit == 0 {
        "0"
    } else if digit == 1 {
        "1"
    } else if digit == 2 {
        "2"
    } else if digit == 3 {
        "3"
    } else if digit == 4 {
        "4"
    } else if digit == 5 {
        "5"
    } else if digit == 6 {
        "6"
    } else if digit == 7 {
        "7"
    } else if digit == 8 {
        "8"
    } else {
        "9"
    }
}

/// Appends a number in base ten.
fn append_number(text: &mut String, n: u16)
    ensures
        final(text)@ == old(text)@ + number_text(n as nat),
    decreases n,
{
    if n >= 10 {
        append_number(text, n / 10);
    }
    text.append(digit_str(n % 10));
    proof {
        if n >= 10 {
            assert(final(text)@ =~= old(text)@ + (number_text((n / 10) as nat) + digit_text(
                (n % 10) as nat,
            )));
        }
    }
}

/// A client id right-aligned in a column of width six.
fn id_column(id: ClientId) -> (text: String)
    ensures
        text@ == id_column_text(id),
{
    let mut text = String::from_str(
        if id < 10 {
            "     "
        } else if id < 100 {
            "    "
        } else if id < 1000 {
            "   "
        } else if id < 10000 {
            "  "
        } else {
            " "
        },
    );
    append_number(&mut text, id);
    text
}

impl AccountView {
    /// The line of the balance sheet for this account.
    pub open spec fn row_text(self) -> Seq<char> {
        id_column_text(self.id) + ", "@ + decimal_column_text(
            self.available.mantissa as i64,
            self.available.scale as u32,
        ) + ", "@ + decimal_column_text(self.held.mantissa as i64, self.held.scale as u32) + ", "@
            + decimal_column_text(self.total().mantissa as i64, self.total().scale as u32)
            + ",     "@ + (if self.locked {
            "true"@
        } else {
            "false"@
        })
    }
}

} // verus!
