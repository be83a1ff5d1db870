//! The core of the payment engine: client accounts, the transaction history,
//! and the rules by which requests change them.

use vstd::prelude::*;
use std::collections::HashMap;
use crate::requests::{Action, Amount, ClientId, Request, RequestType};
use vstd::std_specs::iter::IteratorSpec;
use crate::laws::{accounted, lemma_step_keeps_accounting};

verus! {

broadcast use vstd::std_specs::hash::group_hash_axioms;

/// The states that a deposit can be in.
#[derive(Debug, Clone, Copy, PartialEq, Eq, Structural)]
pub enum DepositState {
    /// The deposit was actioned, adding funds to the client's account.
    Actioned,
    /// The deposit is in dispute; it can be resolved back to `Actioned`, or
    /// charged back.
    InDispute,
    /// The deposit has been charged back, and can be neither actioned nor
    /// disputed again.
    ChargedBack,
}

/// What the engine knows of a client's account.
pub struct AccountState {
    pub available: int,
    pub held: int,
    pub locked: bool,
}

/// What the engine remembers of a transaction.
pub enum TxRecord {
    Deposit { client: u16, amount: int, state: DepositState },
    Withdrawal { client: u16 },
}

/// The state of the whole engine: accounts by client, transactions by id.
pub struct EngineState {
    pub accounts: Map<u16, AccountState>,
    pub history: Map<u32, TxRecord>,
}

pub open spec fn fresh_account() -> AccountState {
    AccountState { available: 0, held: 0, locked: false }
}

pub open spec fn in_i64(x: int) -> bool {
    i64::MIN <= x <= i64::MAX
}

/// The balances of an account, and its total, fit in an `i64`.
pub open spec fn account_fits(a: AccountState) -> bool {
    in_i64(a.available) && in_i64(a.held) && in_i64(a.available + a.held)
}

/// Every account of the state fits in `i64`s.
pub open spec fn state_fits(s: EngineState) -> bool {
    forall|c: u16| #[trigger] s.accounts.contains_key(c) ==> account_fits(s.accounts[c])
}

/// The effect of a deposit of `amount` units by `client` as transaction `tx`.
pub open spec fn deposit_step(s: EngineState, client: u16, tx: u32, amount: int) -> EngineState {
    if s.history.contains_key(tx) {
        s
    } else {
        let a = if s.accounts.contains_key(client) {
            s.accounts[client]
        } else {
            fresh_account()
        };
        if a.locked {
            s
        } else {
            EngineState {
                accounts: s.accounts.insert(
                    client,
                    AccountState { available: a.available + amount, ..a },
                ),
                history: s.history.insert(
                    tx,
                    TxRecord::Deposit { client, amount, state: DepositState::Actioned },
                ),
            }
        }
    }
}

/// The effect of a withdrawal of `amount` units by `client` as transaction
/// `tx`: refused where the funds available do not cover it.
pub open spec fn withdrawal_step(s: EngineState, client: u16, tx: u32, amount: int) -> EngineState {
    if s.history.contains_key(tx) || !s.accounts.contains_key(client) {
        s
    } else {
        let a = s.accounts[client];
        if a.locked || a.available < amount {
            s
        } else {
            EngineState {
                accounts: s.accounts.insert(
                    client,
                    AccountState { available: a.available - amount, ..a },
                ),
                history: s.history.insert(tx, TxRecord::Withdrawal { client }),
            }
        }
    }
}

/// The deposit that `client` may act on with a dispute, resolution or
/// chargeback naming `tx`, where it is in state `from`: its amount.
pub open spec fn disputable(s: EngineState, client: u16, tx: u32, from: DepositState) -> Option<int> {
    if s.history.contains_key(tx) && s.accounts.contains_key(client) {
        match s.history[tx] {
            TxRecord::Deposit { client: owner, amount, state } => {
                if owner == client && state == from {
                    Some(amount)
                } else {
                    None
                }
            },
            TxRecord::Withdrawal { .. } => None,
        }
    } else {
        None
    }
}

/// Moves the deposit `tx` of `client` to the state `to`, and its account to `a`.
pub open spec fn settle(s: EngineState, client: u16, tx: u32, amount: int, to: DepositState, a: AccountState) -> EngineState {
    EngineState {
        accounts: s.accounts.insert(client, a),
        history: s.history.insert(tx, TxRecord::Deposit { client, amount, state: to }),
    }
}

/// A dispute moves the funds of an actioned deposit from available to held.
pub open spec fn dispute_step(s: EngineState, client: u16, tx: u32) -> EngineState {
    match disputable(s, client, tx, DepositState::Actioned) {
        Some(amount) => {
            let a = s.accounts[client];
            settle(s, client, tx, amount, DepositState::InDispute,
                AccountState { available: a.available - amount, held: a.held + amount, locked: a.locked })
        },
        None => s,
    }
}

/// A resolution moves the funds of a disputed deposit back to available.
pub open spec fn resolve_step(s: EngineState, client: u16, tx: u32) -> EngineState {
    match disputable(s, client, tx, DepositState::InDispute) {
        Some(amount) => {
            let a = s.accounts[client];
            settle(s, client, tx, amount, DepositState::Actioned,
                AccountState { available: a.available + amount, held: a.held - amount, locked: a.locked })
        },
        None => s,
    }
}

/// A chargeback releases the funds of a disputed deposit and locks the account.
pub open spec fn chargeback_step(s: EngineState, client: u16, tx: u32) -> EngineState {
    match disputable(s, client, tx, DepositState::InDispute) {
        Some(amount) => {
            let a = s.accounts[client];
            settle(s, client, tx, amount, DepositState::ChargedBack,
                AccountState { available: a.available, held: a.held - amount, locked: true })
        },
        None => s,
    }
}

/// The state after the engine actions `act` of `client` as transaction `tx`
/// in state `s`.
pub open spec fn apply(s: EngineState, client: u16, tx: u32, act: Action) -> EngineState {
    match act {
        Action::Deposit(amount) => deposit_step(s, client, tx, amount),
        Action::Withdrawal(amount) => withdrawal_step(s, client, tx, amount),
        Action::Dispute => dispute_step(s, client, tx),
        Action::Resolve => resolve_step(s, client, tx),
        Action::Chargeback => chargeback_step(s, client, tx),
    }
}

/// The state after the engine actions `r` in state `s`.
pub open spec fn step(s: EngineState, r: Request) -> EngineState {
    apply(s, r.client.0, r.transaction.0, r.request_type@)
}

/// Actioning `r` in `s` keeps every balance and total within `i64`.
pub open spec fn step_fits(s: EngineState, r: Request) -> bool {
    state_fits(step(s, r))
}

/// Line item in a generated statement from the engine.
#[derive(Debug, Clone, Copy, PartialEq, Eq, Structural)]
pub struct StatementItem {
    /// The client to which this line item pertains.
    pub client: ClientId,
    /// How many funds are available to the client to use.
    pub available: i64,
    /// How many funds are currently held in dispute.
    pub held: i64,
    /// The total funds within the client's account.
    pub total: i64,
    /// Whether the account has been locked as a result of a chargeback.
    pub locked: bool,
}

/// `item` reports the account of its client in `s` as it stands.
pub open spec fn reports_account(s: EngineState, item: StatementItem) -> bool {
    &&& s.accounts.contains_key(item.client.0)
    &&& item.available == s.accounts[item.client.0].available
    &&& item.held == s.accounts[item.client.0].held
    &&& item.total == s.accounts[item.client.0].available + s.accounts[item.client.0].held
    &&& item.locked == s.accounts[item.client.0].locked
}

/// `items` reports every account of `s` once, and nothing else.
pub open spec fn is_statement(s: EngineState, items: Seq<StatementItem>) -> bool {
    &&& items.len() == s.accounts.len()
    &&& forall|i: int| 0 <= i < items.len() ==> reports_account(s, #[trigger] items[i])
    &&& forall|i: int, j: int|
        0 <= i < j < items.len() ==> #[trigger] items[i].client != #[trigger] items[j].client
    &&& forall|c: u16|
        #[trigger] s.accounts.contains_key(c) ==> exists|i: int|
            0 <= i < items.len() && #[trigger] items[i].client == ClientId(c)
}

// A client's account.
#[derive(Clone, Copy)]
struct Account {
    available: i64,
    held: i64,
    locked: bool,
}

// What kind of transaction was recorded.
#[derive(Clone, Copy)]
enum TransactionType {
    Deposit { amount: Amount, state: DepositState },
    Withdrawal,
}

// A transaction that resulted in the moving of funds.
#[derive(Clone, Copy)]
struct Transaction {
    client: ClientId,
    transaction_type: TransactionType,
}

impl Account {
    // Create an empty account.
    fn new() -> (a: Account)
        ensures
            a.model() == fresh_account(),
    {
        Account { available: 0, held: 0, locked: false }
    }

    spec fn model(self) -> AccountState {
        AccountState { available: self.available as int, held: self.held as int, locked: self.locked }
    }

    // Calculate the total funds within the account.
    fn total(&self) -> (t: i64)
        requires
            in_i64(self.available + self.held),
        ensures
            t == self.available + self.held,
    {
        self.available + self.held
    }
}

impl Transaction {
    spec fn model(self) -> TxRecord {
        match self.transaction_type {
            TransactionType::Deposit { amount, state } => TxRecord::Deposit {
                client: self.client.0,
                amount: amount@,
                state,
            },
            TransactionType::Withdrawal => TxRecord::Withdrawal { client: self.client.0 },
        }
    }
}

// The accounts and the transaction history, which the engine keeps.
struct Ledger {
    accounts: HashMap<u16, Account>,
    transaction_history: HashMap<u32, Transaction>,
}

impl View for Ledger {
    type V = EngineState;

    closed spec fn view(&self) -> EngineState {
        EngineState {
            accounts: self.accounts@.map_values(|a: Account| a.model()),
            history: self.transaction_history@.map_values(|t: Transaction| t.model()),
        }
    }
}

impl Ledger {
    // An empty ledger.
    fn new() -> (e: Ledger)
        ensures
            e@.accounts.is_empty(),
            e@.history.is_empty(),
            state_fits(e@),
            accounted(e@),
    {
        let e = Ledger { accounts: HashMap::new(), transaction_history: HashMap::new() };
        assert(e@.accounts =~= Map::empty());
        assert(e@.history =~= Map::empty());
        e
    }

    // Action a request.
    fn action(&mut self, request: Request)
        requires
            step_fits(old(self)@, request),
        ensures
            final(self)@ == step(old(self)@, request),
    {
        let client = request.client.0;
        let tx = request.transaction.0;
        match request.request_type {
            RequestType::Deposit { amount } => self.deposit(request.client, tx, amount),
            RequestType::Withdrawal { amount } => self.withdraw(request.client, tx, amount),
            RequestType::Dispute => self.dispute(client, tx),
            RequestType::Resolve => self.resolve(client, tx),
            RequestType::Chargeback => self.chargeback(client, tx),
        }
    }

    // One line for each account, in the order of the hash map.
    fn generate_statement(&self) -> (statement: Vec<StatementItem>)
        requires
            state_fits(self@),
        ensures
            is_statement(self@, statement@),
    {
        let ghost s = self@;
        let ghost pairs = self.accounts.iter().remaining();
        let mut statement: Vec<StatementItem> = Vec::new();
        for pair in it: self.accounts.iter()
            invariant
                s == self@,
                state_fits(s),
                it.seq() == pairs,
                pairs == self.accounts.iter().remaining(),
                statement@.len() == it.index(),
                forall|i: int| 0 <= i < statement@.len() ==> #[trigger] statement@[i].client == ClientId(*pairs[i].0),
                forall|i: int| 0 <= i < statement@.len() ==> reports_account(s, #[trigger] statement@[i]),
        {
            let (client, account) = pair;
            let ghost k = *client;
            assert(self.accounts@.contains_key(k));
            assert(s.accounts.contains_key(k));
            let item = StatementItem {
                client: ClientId(*client),
                available: account.available,
                held: account.held,
                total: account.total(),
                locked: account.locked,
            };
            statement.push(item);
        }
        proof {
            assert(statement@.len() == pairs.len());
            assert(pairs.len() == self.accounts@.dom().len());
            assert(s.accounts.dom() =~= self.accounts@.dom());
            assert(pairs.no_duplicates());
            assert forall|i: int, j: int| 0 <= i < j < statement@.len() implies #[trigger] statement@[i].client != #[trigger] statement@[j].client by {
                if statement@[i].client == statement@[j].client {
                    let k = *pairs[i].0;
                    assert(self.accounts@.contains_key(*pairs[i].0));
                    assert(self.accounts@.contains_key(*pairs[j].0));
                    assert(*pairs[i].1 == self.accounts@[k]);
                    assert(*pairs[j].1 == self.accounts@[k]);
                    assert(pairs[i] == pairs[j]);
                }
            }
            assert forall|c: u16| #[trigger] s.accounts.contains_key(c) implies exists|i: int|
                0 <= i < statement@.len() && #[trigger] statement@[i].client == ClientId(c) by {
                assert(self.accounts@.contains_key(c));
                assert(pairs.contains((&c, &self.accounts@[c])));
                let i = choose|i: int| 0 <= i < pairs.len() && pairs[i] == (&c, &self.accounts@[c]);
                assert(statement@[i].client == ClientId(c));
            }
        }
        statement
    }

    // Whether actioning `request` keeps every balance and total within `i64`.
    fn fits(&self, request: &Request) -> (b: bool)
        requires
            state_fits(self@),
        ensures
            b == step_fits(self@, *request),
    {
        let client = request.client.0;
        let tx = request.transaction.0;
        let ghost s = self@;
        let ghost next = step(s, *request);
        let changed: Option<(i128, i128)> = match request.request_type {
            RequestType::Deposit { amount } => {
                if self.transaction_history.contains_key(&tx) {
                    None
                } else {
                    let account = match self.accounts.get(&client) {
                        Some(a) => *a,
                        None => Account::new(),
                    };
                    if account.locked {
                        None
                    } else {
                        Some((account.available as i128 + amount.units() as i128, account.held as i128))
                    }
                }
            },
            RequestType::Withdrawal { amount } => {
                if self.transaction_history.contains_key(&tx) {
                    None
                } else {
                    match self.accounts.get(&client) {
                        Some(a) => {
                            if a.locked || a.available < amount.units() {
                                None
                            } else {
                                Some((a.available as i128 - amount.units() as i128, a.held as i128))
                            }
                        },
                        None => None,
                    }
                }
            },
            RequestType::Dispute => {
                match self.find_disputable(client, tx, DepositState::Actioned) {
                    Some((amount, a)) => Some(
                        (a.available as i128 - amount.units() as i128, a.held as i128 + amount.units() as i128),
                    ),
                    None => None,
                }
            },
            RequestType::Resolve => {
                match self.find_disputable(client, tx, DepositState::InDispute) {
                    Some((amount, a)) => Some(
                        (a.available as i128 + amount.units() as i128, a.held as i128 - amount.units() as i128),
                    ),
                    None => None,
                }
            },
            RequestType::Chargeback => {
                match self.find_disputable(client, tx, DepositState::InDispute) {
                    Some((amount, a)) => Some((a.available as i128, a.held as i128 - amount.units() as i128)),
                    None => None,
                }
            },
        };
        match changed {
            None => {
                assert(next == s);
                true
            },
            Some((available, held)) => {
                proof {
                    assert(next.accounts.contains_key(client));
                    assert(next.accounts[client].available == available);
                    assert(next.accounts[client].held == held);
                    assert(next.accounts =~= s.accounts.insert(client, next.accounts[client]));
                }
                let min = i64::MIN as i128;
                let max = i64::MAX as i128;
                min <= available && available <= max && min <= held && held <= max && min <= available
                    + held && available + held <= max
            },
        }
    }

    // Store `account` as the account of `client`.
    fn put_account(&mut self, client: u16, account: Account)
        requires
            in_i64(account.available + account.held),
        ensures
            final(self)@ == (EngineState {
                accounts: old(self)@.accounts.insert(client, account.model()),
                history: old(self)@.history,
            }),
    {
        let ghost before = self@;
        self.accounts.insert(client, account);
        assert(self@.accounts =~= before.accounts.insert(client, account.model()));
    }

    // Record `transaction` under `tx`.
    fn put_transaction(&mut self, tx: u32, transaction: Transaction)
        ensures
            final(self)@ == (EngineState {
                accounts: old(self)@.accounts,
                history: old(self)@.history.insert(tx, transaction.model()),
            }),
    {
        let ghost before = self@;
        self.transaction_history.insert(tx, transaction);
        assert(self@.history =~= before.history.insert(tx, transaction.model()));
    }

    fn deposit(&mut self, client: ClientId, tx: u32, amount: Amount)
        requires
            state_fits(deposit_step(old(self)@, client.0, tx, amount@)),
        ensures
            final(self)@ == deposit_step(old(self)@, client.0, tx, amount@),
    {
        if self.transaction_history.contains_key(&tx) {
            return;
        }
        let mut account = match self.accounts.get(&client.0) {
            Some(a) => *a,
            None => Account::new(),
        };
        // Using a frozen account is not allowed.
        if account.locked {
            return;
        }
        let ghost s = deposit_step(self@, client.0, tx, amount@);
        assert(s.accounts.contains_key(client.0));
        account.available = account.available + amount.units();
        self.put_account(client.0, account);
        self.put_transaction(
            tx,
            Transaction {
                client,
                transaction_type: TransactionType::Deposit { amount, state: DepositState::Actioned },
            },
        );
    }

    fn withdraw(&mut self, client: ClientId, tx: u32, amount: Amount)
        requires
            state_fits(withdrawal_step(old(self)@, client.0, tx, amount@)),
        ensures
            final(self)@ == withdrawal_step(old(self)@, client.0, tx, amount@),
    {
        if self.transaction_history.contains_key(&tx) {
            return;
        }
        let mut account = match self.accounts.get(&client.0) {
            Some(a) => *a,
            None => {
                return;
            },
        };
        // Using a frozen account is not allowed.
        if account.locked {
            return;
        }
        // Cannot overdraw: the transaction is dropped, not entered into history.
        if account.available < amount.units() {
            return;
        }
        let ghost s = withdrawal_step(self@, client.0, tx, amount@);
        assert(s.accounts.contains_key(client.0));
        account.available = account.available - amount.units();
        self.put_account(client.0, account);
        self.put_transaction(
            tx,
            Transaction { client, transaction_type: TransactionType::Withdrawal },
        );
    }

    // The deposit `tx` of `client`, if it is in state `from` and the account exists.
    fn find_disputable(&self, client: u16, tx: u32, from: DepositState) -> (r: Option<(Amount, Account)>)
        ensures
            match r {
                Some((amount, account)) => disputable(self@, client, tx, from) == Some(amount@)
                    && self@.accounts.contains_key(client)
                    && self@.accounts[client] == account.model(),
                None => disputable(self@, client, tx, from) is None,
            },
    {
        let transaction = match self.transaction_history.get(&tx) {
            Some(t) => *t,
            None => {
                return None;
            },
        };
        if transaction.client.0 != client {
            return None;
        }
        match transaction.transaction_type {
            TransactionType::Deposit { amount, state } => {
                if state == from {
                    match self.accounts.get(&client) {
                        Some(a) => Some((amount, *a)),
                        None => None,
                    }
                } else {
                    None
                }
            },
            TransactionType::Withdrawal => None,
        }
    }

    // Moves deposit `tx` of `client` to state `to` and stores `account`.
    fn settle(&mut self, client: u16, tx: u32, amount: Amount, to: DepositState, account: Account)
        requires
            in_i64(account.available + account.held),
        ensures
            final(self)@ == settle(old(self)@, client, tx, amount@, to, account.model()),
    {
        self.put_account(client, account);
        self.put_transaction(
            tx,
            Transaction {
                client: ClientId(client),
                transaction_type: TransactionType::Deposit { amount, state: to },
            },
        );
    }

    fn dispute(&mut self, client: u16, tx: u32)
        requires
            state_fits(dispute_step(old(self)@, client, tx)),
        ensures
            final(self)@ == dispute_step(old(self)@, client, tx),
    {
        if let Some((amount, account)) = self.find_disputable(client, tx, DepositState::Actioned) {
            let ghost s = dispute_step(self@, client, tx);
            assert(s.accounts.contains_key(client));
            // Move funds from available to being held.
            let moved = Account {
                available: account.available - amount.units(),
                held: account.held + amount.units(),
                locked: account.locked,
            };
            self.settle(client, tx, amount, DepositState::InDispute, moved);
        }
    }

    fn resolve(&mut self, client: u16, tx: u32)
        requires
            state_fits(resolve_step(old(self)@, client, tx)),
        ensures
            final(self)@ == resolve_step(old(self)@, client, tx),
    {
        if let Some((amount, account)) = self.find_disputable(client, tx, DepositState::InDispute) {
            let ghost s = resolve_step(self@, client, tx);
            assert(s.accounts.contains_key(client));
            // Move funds from being held back to available.
            let moved = Account {
                available: account.available + amount.units(),
                held: account.held - amount.units(),
                locked: account.locked,
            };
            self.settle(client, tx, amount, DepositState::Actioned, moved);
        }
    }

    fn chargeback(&mut self, client: u16, tx: u32)
        requires
            state_fits(chargeback_step(old(self)@, client, tx)),
        ensures
            final(self)@ == chargeback_step(old(self)@, client, tx),
    {
        if let Some((amount, account)) = self.find_disputable(client, tx, DepositState::InDispute) {
            let ghost s = chargeback_step(self@, client, tx);
            assert(s.accounts.contains_key(client));
            // Issue the chargeback by releasing that which was held; the
            // account is then locked from further use.
            let charged = Account {
                available: account.available,
                held: account.held - amount.units(),
                locked: true,
            };
            self.settle(client, tx, amount, DepositState::ChargedBack, charged);
        }
    }
}

/// The primary transaction request processor in the payment engine. Handles
/// requests from arbitrary sources, and manages client accounts internally to
/// produce a final statement.
pub struct Engine {
    ledger: Ledger,
}

impl View for Engine {
    type V = EngineState;

    closed spec fn view(&self) -> EngineState {
        self.ledger@
    }
}

impl Engine {
    /// Every engine keeps its balances and totals within `i64` and keeps its
    /// bookkeeping (see `accounted`).
    #[verifier::type_invariant]
    closed spec fn well_kept(self) -> bool {
        state_fits(self.ledger@) && accounted(self.ledger@)
    }

    /// Create a new payment engine.
    pub fn new() -> (e: Engine)
        ensures
            e@.accounts.is_empty(),
            e@.history.is_empty(),
            state_fits(e@),
            accounted(e@),
    {
        Engine { ledger: Ledger::new() }
    }

    /// Action a given request, processing any updates to client accounts.
    /// Requests that the rules do not allow leave the engine unchanged.
    pub fn action(&mut self, request: Request)
        requires
            step_fits(old(self)@, request),
        ensures
            final(self)@ == step(old(self)@, request),
            state_fits(old(self)@),
            accounted(old(self)@),
            state_fits(final(self)@),
            accounted(final(self)@),
    {
        proof {
            use_type_invariant(&*self);
            match request.request_type {
                RequestType::Deposit { amount } => {
                    use_type_invariant(&amount);
                },
                RequestType::Withdrawal { amount } => {
                    use_type_invariant(&amount);
                },
                _ => {},
            }
            lemma_step_keeps_accounting(self@, request.client.0, request.transaction.0, request.request_type@);
        }
        let mut ledger = Ledger::new();
        std::mem::swap(&mut ledger, &mut self.ledger);
        ledger.action(request);
        self.ledger = ledger;
    }

    /// Generate a statement based on the current state of all client
    /// accounts: one line for each client the engine has handled requests
    /// for, in no particular order.
    pub fn generate_statement(&self) -> (statement: Vec<StatementItem>)
        ensures
            is_statement(self@, statement@),
            state_fits(self@),
            accounted(self@),
    {
        proof {
            use_type_invariant(self);
        }
        self.ledger.generate_statement()
    }

    /// Whether actioning `request` keeps every balance and total within
    /// `i64`; where it does not, `action` would overflow.
    pub fn fits(&self, request: &Request) -> (b: bool)
        ensures
            b == step_fits(self@, *request),
    {
        proof {
            use_type_invariant(self);
        }
        self.ledger.fits(request)
    }
}

} // verus!
