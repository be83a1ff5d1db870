//! The decisions of the command line interface: turning the fields of an
//! input record into a request for the engine, and ordering the final
//! statement. Reading the input and writing the output happen around it.

use vstd::prelude::*;
use crate::engine::{apply, is_statement, state_fits, Engine, EngineState, StatementItem};
use crate::requests::{Action, Amount, ClientId, Request, RequestType, TransactionId, parse_units};
use crate::text::chars_of;

verus! {

/// Wraps the engine in a command line interface, and feeds it payment
/// requests from its inputs.
pub struct Cli {
    engine: Engine,
}

/// Possible errors from running the CLI.
#[derive(Debug, Clone, Copy, PartialEq, Eq, Structural)]
pub enum CliError {
    /// An input request used an unknown type of transaction.
    UnhandledTransactionType,
    /// An input request was missing an amount value.
    MissingAmount,
    /// A transaction attempted to use an invalid amount value.
    InvalidAmount,
}

impl CliError {
    /// The message that reports the error.
    pub fn message(&self) -> (m: String)
        ensures
            m@ == "failed to serve CSV data from the CLI"@,
    {
        "failed to serve CSV data from the CLI".to_owned()
    }
}

pub open spec fn deposit_word() -> Seq<char> {
    seq!['d', 'e', 'p', 'o', 's', 'i', 't']
}

pub open spec fn withdrawal_word() -> Seq<char> {
    seq!['w', 'i', 't', 'h', 'd', 'r', 'a', 'w', 'a', 'l']
}

pub open spec fn dispute_word() -> Seq<char> {
    seq!['d', 'i', 's', 'p', 'u', 't', 'e']
}

pub open spec fn resolve_word() -> Seq<char> {
    seq!['r', 'e', 's', 'o', 'l', 'v', 'e']
}

pub open spec fn chargeback_word() -> Seq<char> {
    seq!['c', 'h', 'a', 'r', 'g', 'e', 'b', 'a', 'c', 'k']
}

/// The units of the amount field of a record, or why there are none.
pub open spec fn record_amount(amount: Option<Seq<char>>) -> Result<int, CliError> {
    match amount {
        Some(text) => match parse_units(text) {
            Some(u) => Ok(u),
            None => Err(CliError::InvalidAmount),
        },
        None => Err(CliError::MissingAmount),
    }
}

/// What a record with transaction type `kind` and amount field `amount` asks
/// for: the amount is only looked at for deposits and withdrawals.
pub open spec fn record_action(kind: Seq<char>, amount: Option<Seq<char>>) -> Result<Action, CliError> {
    if kind == deposit_word() {
        match record_amount(amount) {
            Ok(u) => Ok(Action::Deposit(u)),
            Err(e) => Err(e),
        }
    } else if kind == withdrawal_word() {
        match record_amount(amount) {
            Ok(u) => Ok(Action::Withdrawal(u)),
            Err(e) => Err(e),
        }
    } else if kind == dispute_word() {
        Ok(Action::Dispute)
    } else if kind == resolve_word() {
        Ok(Action::Resolve)
    } else if kind == chargeback_word() {
        Ok(Action::Chargeback)
    } else {
        Err(CliError::UnhandledTransactionType)
    }
}

pub open spec fn text_view(t: Option<&str>) -> Option<Seq<char>> {
    match t {
        Some(s) => Some(s@),
        None => None,
    }
}

/// Actioning the record keeps every balance within `i64`, where it is a
/// valid request at all.
pub open spec fn record_fits(s: EngineState, kind: Seq<char>, client: u16, tx: u32, amount: Option<Seq<char>>) -> bool {
    match record_action(kind, amount) {
        Ok(act) => state_fits(apply(s, client, tx, act)),
        Err(_) => true,
    }
}

/// `items` is ordered by client, ascending.
pub open spec fn sorted_by_client(items: Seq<StatementItem>) -> bool {
    forall|i: int, j: int| 0 <= i < j < items.len() ==> #[trigger] items[i].client.0 < #[trigger] items[j].client.0
}

fn same_chars(a: &Vec<char>, b: &Vec<char>) -> (r: bool)
    ensures
        r == (a@ == b@),
{
    if a.len() != b.len() {
        return false;
    }
    let mut i: usize = 0;
    while i < a.len()
        invariant
            a.len() == b.len(),
            i <= a.len(),
            forall|j: int| 0 <= j < i ==> a@[j] == b@[j],
        decreases a.len() - i,
    {
        if a[i] != b[i] {
            return false;
        }
        i = i + 1;
    }
    assert(a@ =~= b@);
    true
}

fn amount_of(amount: Option<&str>) -> (r: Result<Amount, CliError>)
    ensures
        match record_amount(text_view(amount)) {
            Ok(u) => r matches Ok(a) && a@ == u,
            Err(e) => r == Err::<Amount, CliError>(e),
        },
{
    match amount {
        Some(value) => match Amount::parse(value) {
            Ok(a) => Ok(a),
            Err(_) => Err(CliError::InvalidAmount),
        },
        None => Err(CliError::MissingAmount),
    }
}

/// Turn the fields of an input record into a request: the transaction type
/// `kind`, the client and transaction ids, and the amount field where the
/// record has one.
pub fn parse_record(kind: &str, client: u16, tx: u32, amount: Option<&str>) -> (r: Result<Request, CliError>)
    ensures
        match record_action(kind@, text_view(amount)) {
            Ok(act) => r matches Ok(req) && req.client == ClientId(client) && req.transaction
                == TransactionId(tx) && req.request_type@ == act,
            Err(e) => r == Err::<Request, CliError>(e),
        },
{
    let k = chars_of(kind);
    let request_type = if same_chars(&k, &vec!['d', 'e', 'p', 'o', 's', 'i', 't']) {
        RequestType::Deposit { amount: amount_of(amount)? }
    } else if same_chars(&k, &vec!['w', 'i', 't', 'h', 'd', 'r', 'a', 'w', 'a', 'l']) {
        RequestType::Withdrawal { amount: amount_of(amount)? }
    } else if same_chars(&k, &vec!['d', 'i', 's', 'p', 'u', 't', 'e']) {
        RequestType::Dispute
    } else if same_chars(&k, &vec!['r', 'e', 's', 'o', 'l', 'v', 'e']) {
        RequestType::Resolve
    } else if same_chars(&k, &vec!['c', 'h', 'a', 'r', 'g', 'e', 'b', 'a', 'c', 'k']) {
        RequestType::Chargeback
    } else {
        return Err(CliError::UnhandledTransactionType);
    };
    Ok(Request { client: ClientId(client), transaction: TransactionId(tx), request_type })
}

impl View for Cli {
    type V = EngineState;

    closed spec fn view(&self) -> EngineState {
        self.engine@
    }
}

impl Cli {
    /// Initialise the CLI for the given engine instance.
    pub fn new(engine: Engine) -> (cli: Self)
        ensures
            cli@ == engine@,
    {
        Cli { engine }
    }

    /// Whether the record can be processed without a balance overflowing.
    pub fn fits(&self, kind: &str, client: u16, tx: u32, amount: Option<&str>) -> (b: bool)
        ensures
            b == record_fits(self@, kind@, client, tx, text_view(amount)),
    {
        match parse_record(kind, client, tx, amount) {
            Ok(request) => self.engine.fits(&request),
            Err(_) => true,
        }
    }

    /// Process one input record: turn it into a request and have the engine
    /// action it; a record that is no valid request is an error.
    pub fn process(&mut self, kind: &str, client: u16, tx: u32, amount: Option<&str>) -> (r: Result<(), CliError>)
        requires
            record_fits(old(self)@, kind@, client, tx, text_view(amount)),
        ensures
            match record_action(kind@, text_view(amount)) {
                Ok(act) => r is Ok && final(self)@ == apply(old(self)@, client, tx, act) && state_fits(final(self)@),
                Err(e) => r == Err::<(), CliError>(e) && final(self)@ == old(self)@,
            },
    {
        let request = parse_record(kind, client, tx, amount)?;
        self.engine.action(request);
        Ok(())
    }

    /// The final statement, ordered by client so that it is easier to read.
    pub fn statement(&self) -> (items: Vec<StatementItem>)
        ensures
            is_statement(self@, items@),
            sorted_by_client(items@),
    {
        let unsorted = self.engine.generate_statement();
        sort_by_client(unsorted)
    }
}

/// The items ordered by client, ascending, where no two have one client.
fn sort_by_client(items: Vec<StatementItem>) -> (sorted: Vec<StatementItem>)
    requires
        forall|i: int, j: int| 0 <= i < j < items@.len() ==> #[trigger] items@[i].client != #[trigger] items@[j].client,
    ensures
        sorted@.len() == items@.len(),
        sorted_by_client(sorted@),
        forall|i: int| 0 <= i < sorted@.len() ==> items@.contains(#[trigger] sorted@[i]),
        forall|i: int| 0 <= i < items@.len() ==> sorted@.contains(#[trigger] items@[i]),
{
    let mut sorted: Vec<StatementItem> = Vec::new();
    let mut k: usize = 0;
    while k < items.len()
        invariant
            k <= items@.len(),
            sorted@.len() == k,
            sorted_by_client(sorted@),
            forall|i: int, j: int| 0 <= i < j < items@.len() ==> #[trigger] items@[i].client != #[trigger] items@[j].client,
            forall|i: int| #![trigger sorted@[i]] 0 <= i < sorted@.len() ==> exists|j: int| 0 <= j < k && sorted@[i] == #[trigger] items@[j],
            forall|j: int| 0 <= j < k ==> sorted@.contains(#[trigger] items@[j]),
        decreases items@.len() - k,
    {
        let item = items[k];
        let mut pos: usize = 0;
        while pos < sorted.len() && sorted[pos].client.0 < item.client.0
            invariant
                pos <= sorted@.len(),
                forall|i: int| 0 <= i < pos ==> #[trigger] sorted@[i].client.0 < item.client.0,
            decreases sorted@.len() - pos,
        {
            pos = pos + 1;
        }
        proof {
            // No earlier item has this client, so everything from `pos` on comes after it.
            assert forall|i: int| pos <= i < sorted@.len() implies item.client.0 < #[trigger] sorted@[i].client.0 by {
                let j = choose|j: int| 0 <= j < k && sorted@[i] == #[trigger] items@[j];
                assert(items@[j].client != items@[k as int].client);
                if i > pos {
                    assert(sorted@[pos as int].client.0 < sorted@[i].client.0);
                }
            }
        }
        let ghost before = sorted@;
        sorted.insert(pos, item);
        proof {
            assert(sorted@ =~= before.take(pos as int).push(item) + before.skip(pos as int));
            assert forall|i: int, j: int| 0 <= i < j < sorted@.len() implies #[trigger] sorted@[i].client.0 < #[trigger] sorted@[j].client.0 by {
                if i < pos && j > pos {
                    assert(sorted@[j] == before[j - 1]);
                } else if i > pos {
                    assert(sorted@[i] == before[i - 1]);
                    assert(sorted@[j] == before[j - 1]);
                }
            }
            assert forall|i: int| #![trigger sorted@[i]] 0 <= i < sorted@.len() implies exists|j: int| 0 <= j < k + 1 && sorted@[i] == #[trigger] items@[j] by {
                if i < pos {
                    assert(sorted@[i] == before[i]);
                } else if i == pos {
                    assert(sorted@[i] == items@[k as int]);
                } else {
                    assert(sorted@[i] == before[i - 1]);
                }
            }
            assert forall|j: int| 0 <= j < k + 1 implies sorted@.contains(#[trigger] items@[j]) by {
                if j < k {
                    let i = choose|i: int| 0 <= i < before.len() && before[i] == items@[j];
                    if i < pos {
                        assert(sorted@[i] == items@[j]);
                    } else {
                        assert(sorted@[i + 1] == items@[j]);
                    }
                } else {
                    assert(sorted@[pos as int] == items@[j]);
                }
            }
        }
        k = k + 1;
    }
    proof {
        assert forall|i: int| 0 <= i < sorted@.len() implies items@.contains(#[trigger] sorted@[i]) by {
            let j = choose|j: int| 0 <= j < k && sorted@[i] == #[trigger] items@[j];
        }
    }
    sorted
}

} // verus!
