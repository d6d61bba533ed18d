//! The account state machine and the per-worker balance table.
//!
//! Monetary values are fixed-point integers: a `u64` counts minor units of
//! 1/10000 of a whole unit, so `1000000` is `100.0000`. This keeps repeated
//! additions and subtractions exact, which binary floating point would not.

use std::collections::HashMap;
use vstd::prelude::*;

verus! {

/// The kind of operation one input record asks for.
#[derive(Debug, PartialEq, Eq, Structural, Clone, Copy)]
pub enum EventType {
    Deposit,
    Withdrawal,
    Dispute,
    Resolve,
    Chargeback,
}

/// One decoded input record.
///
/// `amount` is a fixed-point value in minor units; it is only meaningful for
/// `Deposit` and `Withdrawal` events.
#[derive(Debug, PartialEq, Eq, Structural, Clone, Copy)]
pub struct Event {
    pub event_type: EventType,
    pub transaction_id: u64,
    pub client_id: u64,
    pub amount: Option<u64>,
}

/// A settled transaction: its globally referenced id and its amount in minor
/// units.
#[derive(Debug, PartialEq, Eq, Structural, Clone, Copy)]
pub struct Transaction {
    pub id: u64,
    pub amount: u64,
}

/// An operation to apply to one account.
#[derive(Debug, PartialEq, Eq, Structural, Clone, Copy)]
pub enum Command {
    Deposit(Transaction),
    Withdrawal(Transaction),
    Dispute(Transaction),
    Resolve(Transaction),
    Chargeback(Transaction),
}

/// Why the account state machine rejected an operation. The rejected
/// operation leaves the account unchanged.
#[derive(Debug, PartialEq, Eq, Structural, Clone, Copy)]
pub enum DomainError {
    /// A deposit or withdrawal reused a transaction id that is already
    /// settled on this account, or a dispute was opened twice for one
    /// transaction.
    DuplicateTransaction,
    /// A withdrawal or dispute asked for more than `available` holds, or a
    /// resolve or chargeback asked for more than `held` holds.
    InsufficientFunds,
    /// A dispute named a transaction id that is not settled on this account.
    TransactionNotFound,
    /// A resolve or chargeback named a transaction id with no open dispute.
    DisputeNotFound,
    /// The account was locked by an earlier chargeback; a locked account
    /// rejects every further operation.
    AccountLocked,
    /// A deposit would push the account's total past what a `u64` of minor
    /// units can hold.
    BalanceOverflow,
}

/// The mathematical state of one account: what `Account` looks like in
/// contracts.
#[verifier::ext_equal]
pub struct AccountView {
    pub client_id: u64,
    pub available: u64,
    pub held: u64,
    pub total: u64,
    pub locked: bool,
    pub transactions: Map<u64, u64>,
    pub open_disputes: Seq<u64>,
    pub resolved: Seq<u64>,
    pub chargedbacks: Seq<u64>,
}

impl AccountView {
    /// The ledger invariants that every reachable account satisfies:
    /// `total` is exactly `available + held`; every open, resolved or
    /// charged-back dispute names a settled transaction; a transaction id
    /// appears at most once in the dispute history, and in at most one of
    /// its three stages.
    pub open spec fn wf(self) -> bool {
        &&& self.total == self.available + self.held
        &&& forall|t: u64| #[trigger]
            self.open_disputes.contains(t) ==> self.transactions.contains_key(t)
        &&& forall|t: u64| #[trigger] self.resolved.contains(t) ==> self.transactions.contains_key(t)
        &&& forall|t: u64| #[trigger]
            self.chargedbacks.contains(t) ==> self.transactions.contains_key(t)
        &&& self.open_disputes.no_duplicates()
        &&& self.resolved.no_duplicates()
        &&& self.chargedbacks.no_duplicates()
        &&& forall|t: u64|
            #![trigger self.open_disputes.contains(t)]
            #![trigger self.resolved.contains(t)]
            !(self.open_disputes.contains(t) && self.resolved.contains(t))
        &&& forall|t: u64|
            #![trigger self.open_disputes.contains(t)]
            #![trigger self.chargedbacks.contains(t)]
            !(self.open_disputes.contains(t) && self.chargedbacks.contains(t))
        &&& forall|t: u64|
            #![trigger self.resolved.contains(t)]
            #![trigger self.chargedbacks.contains(t)]
            !(self.resolved.contains(t) && self.chargedbacks.contains(t))
    }

    /// The account that a first deposit creates: the full amount available,
    /// nothing held, the deposit settled, no dispute history.
    pub open spec fn first_deposit(client_id: u64, transaction_id: u64, amount: u64) -> AccountView {
        AccountView {
            client_id,
            available: amount,
            held: 0,
            total: amount,
            locked: false,
            transactions: Map::empty().insert(transaction_id, amount),
            open_disputes: Seq::empty(),
            resolved: Seq::empty(),
            chargedbacks: Seq::empty(),
        }
    }

    /// How one command changes an account, or exactly why it is rejected.
    ///
    /// A locked account rejects everything. A deposit or withdrawal must use
    /// a fresh transaction id; a withdrawal must fit in `available`; a deposit
    /// must not overflow the fixed-point total. A dispute must name a settled
    /// transaction that was never disputed before, and moves its amount from
    /// `available` to `held`. A resolve or chargeback must name an open
    /// dispute; a resolve moves the amount back to `available`, a chargeback
    /// removes it from the account and locks the account.
    pub open spec fn step(self, command: Command) -> Result<AccountView, DomainError> {
        if self.locked {
            Err(DomainError::AccountLocked)
        } else {
            match command {
                Command::Deposit(tx) => {
                    if self.transactions.contains_key(tx.id) {
                        Err(DomainError::DuplicateTransaction)
                    } else if self.total + tx.amount > u64::MAX {
                        Err(DomainError::BalanceOverflow)
                    } else {
                        Ok(AccountView {
                            available: (self.available + tx.amount) as u64,
                            total: (self.total + tx.amount) as u64,
                            transactions: self.transactions.insert(tx.id, tx.amount),
                            ..self
                        })
                    }
                },
                Command::Withdrawal(tx) => {
                    if self.transactions.contains_key(tx.id) {
                        Err(DomainError::DuplicateTransaction)
                    } else if tx.amount > self.available {
                        Err(DomainError::InsufficientFunds)
                    } else {
                        Ok(AccountView {
                            available: (self.available - tx.amount) as u64,
                            total: (self.total - tx.amount) as u64,
                            transactions: self.transactions.insert(tx.id, tx.amount),
                            ..self
                        })
                    }
                },
                Command::Dispute(tx) => {
                    if !self.transactions.contains_key(tx.id) {
                        Err(DomainError::TransactionNotFound)
                    } else if self.open_disputes.contains(tx.id) || self.resolved.contains(tx.id)
                        || self.chargedbacks.contains(tx.id) {
                        Err(DomainError::DuplicateTransaction)
                    } else if self.available < tx.amount {
                        Err(DomainError::InsufficientFunds)
                    } else {
                        Ok(AccountView {
                            available: (self.available - tx.amount) as u64,
                            held: (self.held + tx.amount) as u64,
                            open_disputes: self.open_disputes.push(tx.id),
                            ..self
                        })
                    }
                },
                Command::Resolve(tx) => {
                    if !self.open_disputes.contains(tx.id) {
                        Err(DomainError::DisputeNotFound)
                    } else if tx.amount > self.held {
                        Err(DomainError::InsufficientFunds)
                    } else {
                        Ok(AccountView {
                            available: (self.available + tx.amount) as u64,
                            held: (self.held - tx.amount) as u64,
                            open_disputes: self.open_disputes.remove_value(tx.id),
                            resolved: self.resolved.push(tx.id),
                            ..self
                        })
                    }
                },
                Command::Chargeback(tx) => {
                    if !self.open_disputes.contains(tx.id) {
                        Err(DomainError::DisputeNotFound)
                    } else if tx.amount > self.held {
                        Err(DomainError::InsufficientFunds)
                    } else {
                        Ok(AccountView {
                            held: (self.held - tx.amount) as u64,
                            total: (self.total - tx.amount) as u64,
                            locked: true,
                            open_disputes: self.open_disputes.remove_value(tx.id),
                            chargedbacks: self.chargedbacks.push(tx.id),
                            ..self
                        })
                    }
                },
            }
        }
    }
}

/// The account that a sequence of commands leaves behind: each command that
/// the state machine accepts moves the account, each rejected one leaves it
/// unchanged and processing continues.
pub open spec fn run(account: AccountView, commands: Seq<Command>) -> AccountView
    decreases commands.len(),
{
    if commands.len() == 0 {
        account
    } else {
        match account.step(commands[0]) {
            Ok(post) => run(post, commands.drop_first()),
            Err(_) => run(account, commands.drop_first()),
        }
    }
}

/// The ledger invariants hold after every sequence of operations, successful
/// or rejected: `total == available + held` exactly, `available` and `held`
/// never negative (they are unsigned), and every open dispute names a settled
/// transaction.
pub proof fn lemma_run_keeps_invariants(account: AccountView, commands: Seq<Command>)
    requires
        account.wf(),
    ensures
        run(account, commands).wf(),
        run(account, commands).total == run(account, commands).available + run(
            account,
            commands,
        ).held,
        run(account, commands).available >= 0,
        run(account, commands).held >= 0,
        forall|t: u64| #[trigger]
            run(account, commands).open_disputes.contains(t) ==> run(
                account,
                commands,
            ).transactions.contains_key(t),
    decreases commands.len(),
{
    if commands.len() > 0 {
        match account.step(commands[0]) {
            Ok(post) => {
                lemma_step_preserves_wf(account, commands[0], post);
                lemma_run_keeps_invariants(post, commands.drop_first());
            },
            Err(_) => {
                lemma_run_keeps_invariants(account, commands.drop_first());
            },
        }
    }
}

/// Replaying a deposit or a withdrawal whose transaction id is already
/// settled on the account is always rejected; by the contract of
/// [`Account::execute`], a rejected command leaves the account unchanged.
pub proof fn lemma_duplicate_rejected(account: AccountView, tx: Transaction)
    requires
        account.transactions.contains_key(tx.id),
    ensures
        account.step(Command::Deposit(tx)) is Err,
        account.step(Command::Withdrawal(tx)) is Err,
{
}

/// Finds the position of the first occurrence of `needle` in `ids`.
fn find_id(ids: &Vec<u64>, needle: u64) -> (result: Option<usize>)
    ensures
        match result {
            Some(index) => index < ids@.len() && ids@[index as int] == needle
                && ids@.index_of_first(needle) == Some(index as int),
            None => !ids@.contains(needle),
        },
{
    let mut i: usize = 0;
    while i < ids.len()
        invariant
            i <= ids@.len(),
            forall|j: int| 0 <= j < i ==> ids@[j] != needle,
        decreases ids@.len() - i,
    {
        if ids[i] == needle {
            proof {
                ids@.index_of_first_ensures(needle);
            }
            return Some(i);
        }
        i = i + 1;
    }
    None
}

/// Tells whether `ids` holds `needle`.
fn contains_id(ids: &Vec<u64>, needle: u64) -> (result: bool)
    ensures
        result == ids@.contains(needle),
{
    find_id(ids, needle).is_some()
}

/// Every successful operation preserves the ledger invariants and never
/// moves the account to another client: `total == available + held` holds
/// again afterwards, balances stay non-negative (they are unsigned), and
/// disputes keep pointing at settled transactions.
pub proof fn lemma_step_preserves_wf(pre: AccountView, command: Command, post: AccountView)
    requires
        pre.wf(),
        pre.step(command) == Ok::<AccountView, DomainError>(post),
    ensures
        post.wf(),
        post.client_id == pre.client_id,
{
    match command {
        Command::Deposit(_) => {
        },
        Command::Withdrawal(_) => {
        },
        Command::Dispute(tx) => {
            lemma_push_fresh(pre.open_disputes, tx.id);
        },
        Command::Resolve(tx) => {
            lemma_remove_open(pre.open_disputes, tx.id);
            lemma_push_fresh(pre.resolved, tx.id);
        },
        Command::Chargeback(tx) => {
            lemma_remove_open(pre.open_disputes, tx.id);
            lemma_push_fresh(pre.chargedbacks, tx.id);
        },
    }
}

/// Appending an element that a duplicate-free sequence does not hold keeps it
/// duplicate-free; afterwards it holds exactly the old elements and the new
/// one.
proof fn lemma_push_fresh(s: Seq<u64>, t: u64)
    requires
        s.no_duplicates(),
        !s.contains(t),
    ensures
        s.push(t).no_duplicates(),
        forall|x: u64| #[trigger] s.push(t).contains(x) <==> s.contains(x) || x == t,
{
    assert forall|x: u64| s.push(t).contains(x) implies s.contains(x) || x == t by {
        let i = choose|i: int| 0 <= i < s.push(t).len() && s.push(t)[i] == x;
        if i < s.len() {
            assert(s[i] == x);
        }
    }
    assert forall|x: u64| s.contains(x) || x == t implies s.push(t).contains(x) by {
        if s.contains(x) {
            let i = choose|i: int| 0 <= i < s.len() && s[i] == x;
            assert(s.push(t)[i] == x);
        } else {
            assert(s.push(t)[s.len() as int] == x);
        }
    }
    assert forall|i: int, j: int|
        0 <= i < s.push(t).len() && 0 <= j < s.push(t).len() && i != j implies s.push(t)[i]
        != s.push(t)[j] by {
        if i < s.len() && j < s.len() {
        } else if i < s.len() {
            assert(s.contains(s[i]));
        } else if j < s.len() {
            assert(s.contains(s[j]));
        }
    }
}

/// Removing the one occurrence of `t` from a duplicate-free sequence keeps
/// every other element, keeps it duplicate-free, and drops `t` itself.
proof fn lemma_remove_open(s: Seq<u64>, t: u64)
    requires
        s.no_duplicates(),
        s.contains(t),
    ensures
        !s.remove_value(t).contains(t),
        forall|x: u64| #[trigger] s.remove_value(t).contains(x) ==> s.contains(x),
        s.remove_value(t).no_duplicates(),
{
    s.index_of_first_ensures(t);
    let i = s.index_of_first(t).unwrap();
    let r = s.remove(i);
    s.remove_ensures(i);
    assert forall|x: u64| r.contains(x) implies s.contains(x) by {
        let j = choose|j: int| 0 <= j < r.len() && r[j] == x;
        if j < i {
            assert(s[j] == x);
        } else {
            assert(s[j + 1] == x);
        }
    }
    assert(!r.contains(t)) by {
        if r.contains(t) {
            let j = choose|j: int| 0 <= j < r.len() && r[j] == t;
            if j < i {
                assert(s[j] == t && s[i] == t);
            } else {
                assert(s[j + 1] == t && s[i] == t);
            }
        }
    }
    assert(r.no_duplicates()) by {
        assert forall|p: int, q: int| 0 <= p < r.len() && 0 <= q < r.len() && p != q
            implies r[p] != r[q] by {
            let sp: int = if p < i { p } else { p + 1 };
            let sq: int = if q < i { q } else { q + 1 };
            assert(r[p] == s[sp] && r[q] == s[sq] && sp != sq);
        }
    }
}

/// One client's running balance, settled transactions and dispute history.
#[derive(Debug, Clone)]
pub struct Account {
    pub client_id: u64,
    pub available: u64,
    pub held: u64,
    pub total: u64,
    pub locked: bool,
    pub transactions: HashMap<u64, u64>,
    pub open_disputes: Vec<u64>,
    pub resolved: Vec<u64>,
    pub chargedbacks: Vec<u64>,
}

impl View for Account {
    type V = AccountView;

    open spec fn view(&self) -> AccountView {
        AccountView {
            client_id: self.client_id,
            available: self.available,
            held: self.held,
            total: self.total,
            locked: self.locked,
            transactions: self.transactions@,
            open_disputes: self.open_disputes@,
            resolved: self.resolved@,
            chargedbacks: self.chargedbacks@,
        }
    }
}

impl Account {
    /// Creates an account from the first deposit seen for a client.
    pub fn new(client_id: u64, transaction_id: u64, amount: u64) -> (account: Account)
        ensures
            account@ == AccountView::first_deposit(client_id, transaction_id, amount),
            account@.wf(),
    {
        let mut transactions: HashMap<u64, u64> = HashMap::new();
        transactions.insert(transaction_id, amount);
        let account = Account {
            client_id,
            available: amount,
            held: 0,
            total: amount,
            locked: false,
            transactions,
            open_disputes: Vec::new(),
            resolved: Vec::new(),
            chargedbacks: Vec::new(),
        };
        proof {
            assert(account@ =~= AccountView::first_deposit(client_id, transaction_id, amount));
        }
        account
    }

    /// Applies one command to the account.
    ///
    /// The outcome is exactly what [`AccountView::step`] says: on success the
    /// account becomes the stepped state, on rejection it is unchanged and
    /// the error names the reason.
    pub fn execute(&mut self, command: Command) -> (result: Result<(), DomainError>)
        requires
            old(self)@.wf(),
        ensures
            final(self)@.wf(),
            final(self)@.client_id == old(self)@.client_id,
            match old(self)@.step(command) {
                Ok(post) => result == Ok::<(), DomainError>(()) && final(self)@ == post,
                Err(e) => result == Err::<(), DomainError>(e) && final(self)@ == old(self)@,
            },
    {
        proof {
            if old(self)@.step(command) is Ok {
                lemma_step_preserves_wf(old(self)@, command, old(self)@.step(command)->Ok_0);
            }
        }
        if self.locked {
            return Err(DomainError::AccountLocked);
        }
        match command {
            Command::Deposit(tx) => {
                if self.transactions.contains_key(&tx.id) {
                    return Err(DomainError::DuplicateTransaction);
                }
                if tx.amount > u64::MAX - self.total {
                    return Err(DomainError::BalanceOverflow);
                }
                self.total = self.total + tx.amount;
                self.available = self.available + tx.amount;
                self.transactions.insert(tx.id, tx.amount);
                proof {
                    assert(self@ =~= old(self)@.step(command)->Ok_0);
                }
                Ok(())
            },
            Command::Withdrawal(tx) => {
                if self.transactions.contains_key(&tx.id) {
                    return Err(DomainError::DuplicateTransaction);
                }
                if tx.amount > self.available {
                    return Err(DomainError::InsufficientFunds);
                }
                self.total = self.total - tx.amount;
                self.available = self.available - tx.amount;
                self.transactions.insert(tx.id, tx.amount);
                proof {
                    assert(self@ =~= old(self)@.step(command)->Ok_0);
                }
                Ok(())
            },
            Command::Dispute(tx) => {
                if !self.transactions.contains_key(&tx.id) {
                    return Err(DomainError::TransactionNotFound);
                }
                if contains_id(&self.open_disputes, tx.id) || contains_id(&self.resolved, tx.id)
                    || contains_id(&self.chargedbacks, tx.id) {
                    return Err(DomainError::DuplicateTransaction);
                }
                if self.available < tx.amount {
                    return Err(DomainError::InsufficientFunds);
                }
                self.available = self.available - tx.amount;
                self.held = self.held + tx.amount;
                self.open_disputes.push(tx.id);
                proof {
                    assert(self@ =~= old(self)@.step(command)->Ok_0);
                }
                Ok(())
            },
            Command::Resolve(tx) => {
                match find_id(&self.open_disputes, tx.id) {
                    Some(index) => {
                        if tx.amount > self.held {
                            return Err(DomainError::InsufficientFunds);
                        }
                        self.available = self.available + tx.amount;
                        self.held = self.held - tx.amount;
                        self.open_disputes.remove(index);
                        self.resolved.push(tx.id);
                        proof {
                            assert(self@ =~= old(self)@.step(command)->Ok_0);
                        }
                        Ok(())
                    },
                    None => Err(DomainError::DisputeNotFound),
                }
            },
            Command::Chargeback(tx) => {
                match find_id(&self.open_disputes, tx.id) {
                    Some(index) => {
                        if tx.amount > self.held {
                            return Err(DomainError::InsufficientFunds);
                        }
                        self.held = self.held - tx.amount;
                        self.total = self.total - tx.amount;
                        self.open_disputes.remove(index);
                        self.chargedbacks.push(tx.id);
                        self.locked = true;
                        proof {
                            assert(self@ =~= old(self)@.step(command)->Ok_0);
                        }
                        Ok(())
                    },
                    None => Err(DomainError::DisputeNotFound),
                }
            },
        }
    }

    /// Looks a settled transaction up by its id.
    pub fn transaction(&self, transaction_id: u64) -> (result: Option<Transaction>)
        ensures
            match result {
                Some(tx) => self@.transactions.contains_key(transaction_id) && tx.id
                    == transaction_id && tx.amount == self@.transactions[transaction_id],
                None => !self@.transactions.contains_key(transaction_id),
            },
    {
        match self.transactions.get(&transaction_id) {
            Some(amount) => Some(Transaction { id: transaction_id, amount: *amount }),
            None => None,
        }
    }
}

/// Why the balance table rejected an event. The rejected event leaves every
/// account unchanged.
#[derive(Debug, PartialEq, Eq, Structural, Clone, Copy)]
pub enum ProcessError {
    /// A withdrawal or dispute-family event named a client with no account;
    /// only a deposit may create one.
    UnknownClient,
    /// A deposit or withdrawal event arrived without an amount.
    MissingAmount,
    /// The account state machine rejected the operation.
    Domain(DomainError),
}

/// The command that an event asks an account to run, or why none can be
/// built: deposits and withdrawals need an amount, and the dispute family
/// works on the settled amount of the named transaction.
///
/// A resolve or chargeback of a transaction that was never settled is a
/// dispute that was never opened (no open dispute can name an unsettled
/// transaction), so it is rejected as `DisputeNotFound`.
pub open spec fn command_for(account: AccountView, event: Event) -> Result<Command, ProcessError> {
    match event.event_type {
        EventType::Deposit => match event.amount {
            Some(amount) => Ok(Command::Deposit(Transaction { id: event.transaction_id, amount })),
            None => Err(ProcessError::MissingAmount),
        },
        EventType::Withdrawal => match event.amount {
            Some(amount) => Ok(
                Command::Withdrawal(Transaction { id: event.transaction_id, amount }),
            ),
            None => Err(ProcessError::MissingAmount),
        },
        EventType::Dispute => if account.transactions.contains_key(event.transaction_id) {
            Ok(
                Command::Dispute(
                    Transaction {
                        id: event.transaction_id,
                        amount: account.transactions[event.transaction_id],
                    },
                ),
            )
        } else {
            Err(ProcessError::Domain(DomainError::TransactionNotFound))
        },
        EventType::Resolve => if account.transactions.contains_key(event.transaction_id) {
            Ok(
                Command::Resolve(
                    Transaction {
                        id: event.transaction_id,
                        amount: account.transactions[event.transaction_id],
                    },
                ),
            )
        } else {
            Err(ProcessError::Domain(DomainError::DisputeNotFound))
        },
        EventType::Chargeback => if account.transactions.contains_key(event.transaction_id) {
            Ok(
                Command::Chargeback(
                    Transaction {
                        id: event.transaction_id,
                        amount: account.transactions[event.transaction_id],
                    },
                ),
            )
        } else {
            Err(ProcessError::Domain(DomainError::DisputeNotFound))
        },
    }
}

/// How one event changes a table of accounts, or exactly why it is rejected.
///
/// An event for a known client runs against that client's account alone. An
/// event for an unknown client creates an account only if it is a deposit
/// with an amount; anything else for an unknown client is rejected.
pub open spec fn process_step(accounts: Map<u64, AccountView>, event: Event) -> Result<
    Map<u64, AccountView>,
    ProcessError,
> {
    if accounts.contains_key(event.client_id) {
        let account = accounts[event.client_id];
        match command_for(account, event) {
            Ok(command) => match account.step(command) {
                Ok(post) => Ok(accounts.insert(event.client_id, post)),
                Err(e) => Err(ProcessError::Domain(e)),
            },
            Err(e) => Err(e),
        }
    } else {
        match event.event_type {
            EventType::Deposit => match event.amount {
                Some(amount) => Ok(
                    accounts.insert(
                        event.client_id,
                        AccountView::first_deposit(event.client_id, event.transaction_id, amount),
                    ),
                ),
                None => Err(ProcessError::MissingAmount),
            },
            EventType::Withdrawal | EventType::Dispute | EventType::Resolve
                | EventType::Chargeback => Err(ProcessError::UnknownClient),
        }
    }
}

/// Every account in a table satisfies the ledger invariants and sits under
/// its own client id.
pub open spec fn wf_table(accounts: Map<u64, AccountView>) -> bool {
    forall|k: u64| #[trigger]
        accounts.contains_key(k) ==> accounts[k].wf() && accounts[k].client_id == k
}

/// The table that a sequence of events leaves behind: each event the table
/// accepts moves it, each rejected one leaves it unchanged and processing
/// continues with the next event.
pub open spec fn process_all(accounts: Map<u64, AccountView>, events: Seq<Event>) -> Map<
    u64,
    AccountView,
>
    decreases events.len(),
{
    if events.len() == 0 {
        accounts
    } else {
        match process_step(accounts, events[0]) {
            Ok(post) => process_all(post, events.drop_first()),
            Err(_) => process_all(accounts, events.drop_first()),
        }
    }
}

/// One accepted event keeps the whole table well formed.
pub proof fn lemma_process_step_preserves_wf(
    accounts: Map<u64, AccountView>,
    event: Event,
    post: Map<u64, AccountView>,
)
    requires
        wf_table(accounts),
        process_step(accounts, event) == Ok::<Map<u64, AccountView>, ProcessError>(post),
    ensures
        wf_table(post),
{
    let client = event.client_id;
    if accounts.contains_key(client) {
        let command = command_for(accounts[client], event)->Ok_0;
        let stepped = accounts[client].step(command)->Ok_0;
        lemma_step_preserves_wf(accounts[client], command, stepped);
        assert forall|k: u64| #[trigger] post.contains_key(k) implies post[k].wf()
            && post[k].client_id == k by {
            if k != client {
                assert(accounts.contains_key(k));
            }
        }
    } else {
        assert forall|k: u64| #[trigger] post.contains_key(k) implies post[k].wf()
            && post[k].client_id == k by {
            if k != client {
                assert(accounts.contains_key(k));
            }
        }
    }
}

/// The ledger invariants hold of every account after every sequence of
/// events, accepted or rejected: this is the whole pipeline's safety
/// property, since each worker drives its own table exactly this way.
pub proof fn lemma_process_all_keeps_invariants(
    accounts: Map<u64, AccountView>,
    events: Seq<Event>,
)
    requires
        wf_table(accounts),
    ensures
        wf_table(process_all(accounts, events)),
    decreases events.len(),
{
    if events.len() > 0 {
        match process_step(accounts, events[0]) {
            Ok(post) => {
                lemma_process_step_preserves_wf(accounts, events[0], post);
                lemma_process_all_keeps_invariants(post, events.drop_first());
            },
            Err(_) => {
                lemma_process_all_keeps_invariants(accounts, events.drop_first());
            },
        }
    }
}

/// The accounts one worker owns, keyed by client id.
#[derive(Debug, Clone)]
pub struct Balances {
    pub accounts: HashMap<u64, Account>,
}

impl View for Balances {
    type V = Map<u64, AccountView>;

    open spec fn view(&self) -> Map<u64, AccountView> {
        Map::new(|k: u64| self.accounts@.contains_key(k), |k: u64| self.accounts@[k]@)
    }
}

impl Balances {
    /// Every account in the table satisfies the ledger invariants and sits
    /// under its own client id.
    pub open spec fn wf(self) -> bool {
        wf_table(self@)
    }

    /// An empty table: a worker starts owning no accounts.
    pub fn new() -> (balances: Balances)
        ensures
            balances@ == Map::<u64, AccountView>::empty(),
            balances.wf(),
    {
        let balances = Balances { accounts: HashMap::new() };
        proof {
            assert(balances@ =~= Map::<u64, AccountView>::empty());
        }
        balances
    }

    /// Applies one event to the table.
    ///
    /// The outcome is exactly what [`process_step`] says: on success the
    /// table becomes the stepped table, on rejection it is unchanged and the
    /// error names the reason.
    pub fn process(&mut self, event: Event) -> (result: Result<(), ProcessError>)
        requires
            old(self).wf(),
        ensures
            final(self).wf(),
            match process_step(old(self)@, event) {
                Ok(post) => result == Ok::<(), ProcessError>(()) && final(self)@ == post,
                Err(e) => result == Err::<(), ProcessError>(e) && final(self)@ == old(self)@,
            },
    {
        let client_id = event.client_id;
        match self.accounts.remove(&client_id) {
            Some(mut account) => {
                let command = match event.event_type {
                    EventType::Deposit => match event.amount {
                        Some(amount) => Ok(
                            Command::Deposit(Transaction { id: event.transaction_id, amount }),
                        ),
                        None => Err(ProcessError::MissingAmount),
                    },
                    EventType::Withdrawal => match event.amount {
                        Some(amount) => Ok(
                            Command::Withdrawal(Transaction { id: event.transaction_id, amount }),
                        ),
                        None => Err(ProcessError::MissingAmount),
                    },
                    EventType::Dispute => match account.transaction(event.transaction_id) {
                        Some(tx) => Ok(Command::Dispute(tx)),
                        None => Err(ProcessError::Domain(DomainError::TransactionNotFound)),
                    },
                    EventType::Resolve => match account.transaction(event.transaction_id) {
                        Some(tx) => Ok(Command::Resolve(tx)),
                        None => Err(ProcessError::Domain(DomainError::DisputeNotFound)),
                    },
                    EventType::Chargeback => match account.transaction(event.transaction_id) {
                        Some(tx) => Ok(Command::Chargeback(tx)),
                        None => Err(ProcessError::Domain(DomainError::DisputeNotFound)),
                    },
                };
                match command {
                    Ok(command) => {
                        let applied = account.execute(command);
                        self.accounts.insert(client_id, account);
                        match applied {
                            Ok(()) => {
                                proof {
                                    assert(self@ =~= process_step(old(self)@, event)->Ok_0);
                                }
                                Ok(())
                            },
                            Err(e) => {
                                proof {
                                    assert(self@ =~= old(self)@);
                                }
                                Err(ProcessError::Domain(e))
                            },
                        }
                    },
                    Err(e) => {
                        self.accounts.insert(client_id, account);
                        proof {
                            assert(self@ =~= old(self)@);
                        }
                        Err(e)
                    },
                }
            },
            None => {
                match event.event_type {
                    EventType::Deposit => match event.amount {
                        Some(amount) => {
                            let account = Account::new(client_id, event.transaction_id, amount);
                            self.accounts.insert(client_id, account);
                            proof {
                                assert(self@ =~= process_step(old(self)@, event)->Ok_0);
                            }
                            Ok(())
                        },
                        None => {
                            proof {
                                assert(self@ =~= old(self)@);
                            }
                            Err(ProcessError::MissingAmount)
                        },
                    },
                    EventType::Withdrawal | EventType::Dispute | EventType::Resolve
                        | EventType::Chargeback => {
                        proof {
                            assert(self@ =~= old(self)@);
                        }
                        Err(ProcessError::UnknownClient)
                    },
                }
            },
        }
    }
}

} // verus!
