//! Properties of the engine's rules that hold for every state and request.

use vstd::prelude::*;
use crate::engine::{
    apply, is_statement, reports_account, step, StatementItem, chargeback_step, deposit_step, disputable, dispute_step, resolve_step, withdrawal_step,
    AccountState, DepositState, EngineState, TxRecord,
};
use crate::requests::{Action, ClientId, Request};

verus! {

/// The amount of a deposit or withdrawal is positive, as that of every
/// `Amount` is.
pub open spec fn valid_action(act: Action) -> bool {
    match act {
        Action::Deposit(u) => u > 0,
        Action::Withdrawal(u) => u > 0,
        _ => true,
    }
}

pub open spec fn total(a: AccountState) -> int {
    a.available + a.held
}

/// Actioning the same request a second time changes nothing: identical
/// transactions are only applied once.
pub proof fn lemma_idempotent(s: EngineState, client: u16, tx: u32, act: Action)
    ensures
        apply(apply(s, client, tx, act), client, tx, act) == apply(s, client, tx, act),
{
    let s1 = apply(s, client, tx, act);
    match act {
        Action::Deposit(u) => {
            if s1 != s {
                assert(s1.history.contains_key(tx));
            }
        },
        Action::Withdrawal(u) => {
            if s1 != s {
                assert(s1.history.contains_key(tx));
            }
        },
        Action::Dispute => {
            if disputable(s, client, tx, DepositState::Actioned) is Some {
                assert(s1.history[tx] matches TxRecord::Deposit { state, .. } && state == DepositState::InDispute);
            }
        },
        Action::Resolve => {
            if disputable(s, client, tx, DepositState::InDispute) is Some {
                assert(s1.history[tx] matches TxRecord::Deposit { state, .. } && state == DepositState::Actioned);
            }
        },
        Action::Chargeback => {
            if disputable(s, client, tx, DepositState::InDispute) is Some {
                assert(s1.history[tx] matches TxRecord::Deposit { state, .. } && state == DepositState::ChargedBack);
            }
        },
    }
}

/// A deposit or withdrawal whose transaction id is already in the history
/// has no effect.
pub proof fn lemma_duplicate_transaction_ignored(s: EngineState, client: u16, tx: u32, amount: int)
    requires
        s.history.contains_key(tx),
    ensures
        deposit_step(s, client, tx, amount) == s,
        withdrawal_step(s, client, tx, amount) == s,
{
}

/// A locked account takes no further deposits or withdrawals, and once
/// locked an account stays locked whatever is actioned.
pub proof fn lemma_locked_account(s: EngineState, client: u16, tx: u32, amount: int)
    requires
        s.accounts.contains_key(client),
        s.accounts[client].locked,
    ensures
        deposit_step(s, client, tx, amount) == s,
        withdrawal_step(s, client, tx, amount) == s,
{
}

/// Once locked, an account stays locked, whatever is actioned.
pub proof fn lemma_locked_stays_locked(s: EngineState, client: u16, tx: u32, act: Action, c: u16)
    requires
        s.accounts.contains_key(c),
        s.accounts[c].locked,
    ensures
        apply(s, client, tx, act).accounts.contains_key(c),
        apply(s, client, tx, act).accounts[c].locked,
{
}

/// Accounts are only ever opened by deposits: any other request, and a
/// deposit whose transaction id is taken, leave the set of accounts as it is;
/// and no account is ever closed.
pub proof fn lemma_accounts_only_opened_by_deposits(s: EngineState, client: u16, tx: u32, act: Action)
    ensures
        ({
            let next = apply(s, client, tx, act);
            &&& forall|c: u16| s.accounts.contains_key(c) ==> #[trigger] next.accounts.contains_key(c)
            &&& forall|c: u16| #[trigger] next.accounts.contains_key(c) && !s.accounts.contains_key(c)
                ==> c == client && act is Deposit && !s.history.contains_key(tx)
        }),
{
}

/// Disputes and resolutions only move funds between available and held:
/// no account's total changes. A chargeback takes the disputed amount out of
/// the client's total and locks the account.
pub proof fn lemma_totals(s: EngineState, client: u16, tx: u32, c: u16)
    requires
        s.accounts.contains_key(c),
    ensures
        total(dispute_step(s, client, tx).accounts[c]) == total(s.accounts[c]),
        total(resolve_step(s, client, tx).accounts[c]) == total(s.accounts[c]),
        match disputable(s, client, tx, DepositState::InDispute) {
            Some(amount) => {
                let next = chargeback_step(s, client, tx).accounts;
                &&& total(next[client]) == total(s.accounts[client]) - amount
                &&& next[client].locked
                &&& c != client ==> next[c] == s.accounts[c]
            },
            None => chargeback_step(s, client, tx) == s,
        },
{
}

/// Only deposits can be disputed: a dispute, resolution or chargeback that
/// names a withdrawal changes nothing.
pub proof fn lemma_withdrawals_not_disputable(s: EngineState, client: u16, tx: u32)
    requires
        s.history.contains_key(tx),
        s.history[tx] is Withdrawal,
    ensures
        dispute_step(s, client, tx) == s,
        resolve_step(s, client, tx) == s,
        chargeback_step(s, client, tx) == s,
{
}

/// Resolving a dispute right after it was raised restores the engine to the
/// state before the dispute.
pub proof fn lemma_resolve_undoes_dispute(s: EngineState, client: u16, tx: u32)
    requires
        disputable(s, client, tx, DepositState::Actioned) is Some,
    ensures
        resolve_step(dispute_step(s, client, tx), client, tx) == s,
{
    let s2 = resolve_step(dispute_step(s, client, tx), client, tx);
    assert(s2.accounts =~= s.accounts);
    assert(s2.history =~= s.history);
}

/// A withdrawal never overdraws: where it takes effect, the funds available
/// afterwards are not negative, and it took exactly its amount.
pub proof fn lemma_withdrawal_never_overdraws(s: EngineState, client: u16, tx: u32, amount: int)
    requires
        withdrawal_step(s, client, tx, amount) != s,
    ensures
        ({
            let next = withdrawal_step(s, client, tx, amount).accounts[client];
            &&& next.available >= 0
            &&& next.available == s.accounts[client].available - amount
            &&& next.held == s.accounts[client].held
        }),
{
}

/// What the transaction `tx` of history `h` holds in dispute for client `c`.
pub open spec fn disputed_amount(h: Map<u32, TxRecord>, c: u16, tx: u32) -> int {
    match h[tx] {
        TxRecord::Deposit { client, amount, state } => {
            if client == c && state == DepositState::InDispute {
                amount
            } else {
                0
            }
        },
        TxRecord::Withdrawal { .. } => 0,
    }
}

/// The sum of what the transactions `keys` of `h` hold in dispute for `c`.
pub open spec fn disputed_sum(h: Map<u32, TxRecord>, c: u16, keys: Set<u32>) -> int
    decreases keys.len(),
{
    if keys.finite() && keys.len() > 0 {
        let k = keys.choose();
        disputed_amount(h, c, k) + disputed_sum(h, c, keys.remove(k))
    } else {
        0
    }
}

/// The client whose transaction `r` is.
pub open spec fn owner(r: TxRecord) -> u16 {
    match r {
        TxRecord::Deposit { client, .. } => client,
        TxRecord::Withdrawal { client } => client,
    }
}

/// The record `r` is a deposit of client `c` that was charged back.
pub open spec fn charged_back_of(r: TxRecord, c: u16) -> bool {
    r matches TxRecord::Deposit { client, state, .. } && client == c && state == DepositState::ChargedBack
}

/// Some deposit of client `c` in history `h` was charged back.
pub open spec fn has_chargeback(h: Map<u32, TxRecord>, c: u16) -> bool {
    exists|tx: u32| #[trigger] h.contains_key(tx) && charged_back_of(h[tx], c)
}

/// The bookkeeping that every state reached from a new engine keeps: each
/// transaction belongs to an existing account, every deposit was of a
/// positive amount, the funds each account holds are exactly those of its
/// deposits in dispute, and an account is locked exactly when one of its
/// deposits was charged back.
pub open spec fn accounted(s: EngineState) -> bool {
    &&& s.history.dom().finite()
    &&& forall|tx: u32| #[trigger] s.history.contains_key(tx) ==> s.accounts.contains_key(
        owner(s.history[tx]),
    )
    &&& forall|tx: u32| #[trigger] s.history.contains_key(tx) ==> (s.history[tx] matches TxRecord::Deposit { amount, .. } ==> amount > 0)
    &&& forall|c: u16| #[trigger] s.accounts.contains_key(c) ==> s.accounts[c].held == disputed_sum(
        s.history,
        c,
        s.history.dom(),
    )
    &&& forall|c: u16| #[trigger] s.accounts.contains_key(c) ==> (s.accounts[c].locked <==> has_chargeback(s.history, c))
}

/// Writing a record that is no charged back deposit over one that is none
/// either leaves untouched which clients had a deposit charged back.
proof fn lemma_chargebacks_unchanged(h: Map<u32, TxRecord>, tx: u32, rec: TxRecord, c: u16)
    requires
        !(h.contains_key(tx) && charged_back_of(h[tx], c)),
        !charged_back_of(rec, c),
    ensures
        has_chargeback(h.insert(tx, rec), c) == has_chargeback(h, c),
{
    let h2 = h.insert(tx, rec);
    if has_chargeback(h, c) {
        let t = choose|t: u32| #[trigger] h.contains_key(t) && charged_back_of(h[t], c);
        assert(h2.contains_key(t) && charged_back_of(h2[t], c));
    }
    if has_chargeback(h2, c) {
        let t = choose|t: u32| #[trigger] h2.contains_key(t) && charged_back_of(h2[t], c);
        assert(h.contains_key(t) && charged_back_of(h[t], c));
    }
}

proof fn lemma_sum_remove(h: Map<u32, TxRecord>, c: u16, keys: Set<u32>, x: u32)
    requires
        keys.finite(),
        keys.contains(x),
    ensures
        disputed_sum(h, c, keys) == disputed_amount(h, c, x) + disputed_sum(h, c, keys.remove(x)),
    decreases keys.len(),
{
    let k = keys.choose();
    if k != x {
        lemma_sum_remove(h, c, keys.remove(k), x);
        lemma_sum_remove(h, c, keys.remove(x), k);
        assert(keys.remove(k).remove(x) =~= keys.remove(x).remove(k));
    }
}

proof fn lemma_sum_agree(h1: Map<u32, TxRecord>, h2: Map<u32, TxRecord>, c: u16, keys: Set<u32>)
    requires
        keys.finite(),
        forall|k: u32| #[trigger] keys.contains(k) ==> disputed_amount(h1, c, k) == disputed_amount(h2, c, k),
    ensures
        disputed_sum(h1, c, keys) == disputed_sum(h2, c, keys),
    decreases keys.len(),
{
    if keys.len() > 0 {
        let k = keys.choose();
        lemma_sum_agree(h1, h2, c, keys.remove(k));
    }
}

proof fn lemma_sum_zero(h: Map<u32, TxRecord>, c: u16, keys: Set<u32>)
    requires
        keys.finite(),
        forall|k: u32| #[trigger] keys.contains(k) ==> disputed_amount(h, c, k) == 0,
    ensures
        disputed_sum(h, c, keys) == 0,
    decreases keys.len(),
{
    if keys.len() > 0 {
        let k = keys.choose();
        lemma_sum_zero(h, c, keys.remove(k));
    }
}

proof fn lemma_sum_nonneg(h: Map<u32, TxRecord>, c: u16, keys: Set<u32>)
    requires
        keys.finite(),
        forall|k: u32| #[trigger] keys.contains(k) ==> disputed_amount(h, c, k) >= 0,
    ensures
        disputed_sum(h, c, keys) >= 0,
    decreases keys.len(),
{
    if keys.len() > 0 {
        let k = keys.choose();
        lemma_sum_nonneg(h, c, keys.remove(k));
    }
}

/// Recording a new transaction `tx` that holds nothing in dispute leaves
/// every client's disputed sum as it was.
proof fn lemma_sum_new_record(h: Map<u32, TxRecord>, c: u16, tx: u32, rec: TxRecord)
    requires
        h.dom().finite(),
        !h.contains_key(tx),
        disputed_amount(h.insert(tx, rec), c, tx) == 0,
    ensures
        disputed_sum(h.insert(tx, rec), c, h.insert(tx, rec).dom()) == disputed_sum(h, c, h.dom()),
{
    let h2 = h.insert(tx, rec);
    assert(h2.dom() =~= h.dom().insert(tx));
    lemma_sum_remove(h2, c, h2.dom(), tx);
    assert(h2.dom().remove(tx) =~= h.dom());
    lemma_sum_agree(h2, h, c, h.dom());
}

/// Replacing the record of an existing transaction `tx` changes each
/// client's disputed sum by the change in what `tx` holds for them.
proof fn lemma_sum_replace(h: Map<u32, TxRecord>, c: u16, tx: u32, rec: TxRecord)
    requires
        h.dom().finite(),
        h.contains_key(tx),
    ensures
        disputed_sum(h.insert(tx, rec), c, h.insert(tx, rec).dom()) == disputed_sum(h, c, h.dom())
            - disputed_amount(h, c, tx) + disputed_amount(h.insert(tx, rec), c, tx),
{
    let h2 = h.insert(tx, rec);
    assert(h2.dom() =~= h.dom());
    lemma_sum_remove(h2, c, h.dom(), tx);
    lemma_sum_remove(h, c, h.dom(), tx);
    lemma_sum_agree(h2, h, c, h.dom().remove(tx));
}

/// Every request keeps the bookkeeping: the funds each account holds stay
/// exactly those of its deposits in dispute.
pub proof fn lemma_step_keeps_accounting(s: EngineState, client: u16, tx: u32, act: Action)
    requires
        accounted(s),
        valid_action(act),
    ensures
        accounted(apply(s, client, tx, act)),
{
    let next = apply(s, client, tx, act);
    if next == s {
        return;
    }
    let h = s.history;
    let h2 = next.history;
    assert(h2.dom().finite()) by {
        assert(h2.dom() =~= h.dom().insert(tx));
    }
    match act {
        Action::Deposit(u) | Action::Withdrawal(u) => {
            assert(!h.contains_key(tx));
            assert forall|c: u16| #[trigger] next.accounts.contains_key(c) implies next.accounts[c].held
                == disputed_sum(h2, c, h2.dom()) && (next.accounts[c].locked <==> has_chargeback(h2, c)) by {
                lemma_sum_new_record(h, c, tx, h2[tx]);
                lemma_chargebacks_unchanged(h, tx, h2[tx], c);
                if !s.accounts.contains_key(c) {
                    assert(!has_chargeback(h, c)) by {
                        if has_chargeback(h, c) {
                            let t = choose|t: u32| #[trigger] h.contains_key(t) && charged_back_of(h[t], c);
                            assert(owner(h[t]) == c);
                        }
                    }
                    // A newly opened account has no transactions before this one.
                    assert forall|k: u32| #[trigger] h.dom().contains(k) implies disputed_amount(h, c, k) == 0 by {
                        assert(h.contains_key(k));
                    }
                    lemma_sum_zero(h, c, h.dom());
                }
            }
        },
        _ => {
            assert(h.contains_key(tx));
            assert forall|c: u16| #[trigger] next.accounts.contains_key(c) implies next.accounts[c].held
                == disputed_sum(h2, c, h2.dom()) && (next.accounts[c].locked <==> has_chargeback(h2, c)) by {
                lemma_sum_replace(h, c, tx, h2[tx]);
                if act is Chargeback && c == client {
                    assert(h2.contains_key(tx) && charged_back_of(h2[tx], c));
                } else {
                    lemma_chargebacks_unchanged(h, tx, h2[tx], c);
                }
            }
        },
    }
}

/// In every state that keeps the bookkeeping, no account holds a negative
/// amount.
pub proof fn lemma_held_never_negative(s: EngineState, c: u16)
    requires
        accounted(s),
        s.accounts.contains_key(c),
    ensures
        s.accounts[c].held >= 0,
{
    assert forall|k: u32| #[trigger] s.history.dom().contains(k) implies disputed_amount(s.history, c, k) >= 0 by {
        assert(s.history.contains_key(k));
    }
    lemma_sum_nonneg(s.history, c, s.history.dom());
}

/// The state after the engine actions the requests `rs`, in order,
/// starting from `s`.
pub open spec fn run(s: EngineState, rs: Seq<Request>) -> EngineState
    decreases rs.len(),
{
    if rs.len() == 0 {
        s
    } else {
        step(run(s, rs.drop_last()), rs.last())
    }
}

/// The `i`-th request of `rs` is a deposit for `c` whose transaction id was
/// not yet recorded when it was actioned.
pub open spec fn fresh_deposit_at(s: EngineState, rs: Seq<Request>, i: int, c: u16) -> bool {
    &&& 0 <= i < rs.len()
    &&& rs[i].client.0 == c
    &&& rs[i].request_type is Deposit
    &&& !run(s, rs.take(i)).history.contains_key(rs[i].transaction.0)
}

/// Over any sequence of requests, a client has an account at the end exactly
/// when it had one at the start or one of the requests was a deposit for it
/// with a transaction id not yet recorded. Rejected deposits, withdrawals,
/// disputes, resolutions and chargebacks never open an account.
pub proof fn lemma_accounts_opened_by_fresh_deposits(s: EngineState, rs: Seq<Request>, c: u16)
    ensures
        run(s, rs).accounts.contains_key(c) <==> (s.accounts.contains_key(c) || exists|i: int|
            fresh_deposit_at(s, rs, i, c)),
    decreases rs.len(),
{
    if rs.len() > 0 {
        let prefix = rs.drop_last();
        let r = rs.last();
        let last = rs.len() - 1;
        let before = run(s, prefix);
        lemma_accounts_opened_by_fresh_deposits(s, prefix, c);
        lemma_accounts_only_opened_by_deposits(before, r.client.0, r.transaction.0, r.request_type@);
        assert(rs.take(last) =~= prefix);
        assert forall|i: int| 0 <= i < last implies #[trigger] fresh_deposit_at(s, rs, i, c)
            == fresh_deposit_at(s, prefix, i, c) by {
            assert(rs.take(i) =~= prefix.take(i));
        }
        assert(run(s, rs) == step(before, r));
        if exists|i: int| fresh_deposit_at(s, prefix, i, c) {
            let i = choose|i: int| fresh_deposit_at(s, prefix, i, c);
            assert(fresh_deposit_at(s, rs, i, c));
        }
        if run(s, rs).accounts.contains_key(c) && !before.accounts.contains_key(c) {
            assert(fresh_deposit_at(s, rs, last, c));
        }
        if exists|i: int| fresh_deposit_at(s, rs, i, c) {
            let i = choose|i: int| fresh_deposit_at(s, rs, i, c);
            if i < last {
                assert(fresh_deposit_at(s, prefix, i, c));
            } else {
                // The last request is a fresh deposit for `c`: it finds or opens its account.
                assert(run(s, rs).accounts.contains_key(c));
            }
        }
    }
}

/// A statement names a client exactly when the client has an account.
pub proof fn lemma_statement_clients(s: EngineState, items: Seq<StatementItem>, c: u16)
    requires
        is_statement(s, items),
    ensures
        (exists|i: int| 0 <= i < items.len() && #[trigger] items[i].client == ClientId(c))
            <==> s.accounts.contains_key(c),
{
    if exists|i: int| 0 <= i < items.len() && #[trigger] items[i].client == ClientId(c) {
        let i = choose|i: int| 0 <= i < items.len() && #[trigger] items[i].client == ClientId(c);
        assert(reports_account(s, items[i]));
    }
}

/// A deposit with a transaction id not yet recorded, into an account that is
/// new or not locked, always takes effect: the funds available grow by
/// exactly its amount, nothing else of the account changes, and the deposit is
/// recorded as actioned. Every other deposit changes nothing.
pub proof fn lemma_deposit_effect(s: EngineState, client: u16, tx: u32, amount: int)
    ensures
        ({
            let before = if s.accounts.contains_key(client) {
                s.accounts[client]
            } else {
                AccountState { available: 0, held: 0, locked: false }
            };
            let next = apply(s, client, tx, Action::Deposit(amount));
            if !s.history.contains_key(tx) && !before.locked {
                next == EngineState {
                    accounts: s.accounts.insert(
                        client,
                        AccountState {
                            available: before.available + amount,
                            held: before.held,
                            locked: false,
                        },
                    ),
                    history: s.history.insert(
                        tx,
                        TxRecord::Deposit { client, amount, state: DepositState::Actioned },
                    ),
                }
            } else {
                next == s
            }
        }),
{
}

/// A withdrawal with a transaction id not yet recorded, by a client with an
/// unlocked account whose available funds cover its amount, always takes
/// effect: the funds available shrink by exactly its amount, whatever is
/// held, and the withdrawal is recorded. Every other withdrawal changes
/// nothing.
pub proof fn lemma_withdrawal_effect(s: EngineState, client: u16, tx: u32, amount: int)
    ensures
        ({
            let next = apply(s, client, tx, Action::Withdrawal(amount));
            if !s.history.contains_key(tx) && s.accounts.contains_key(client)
                && !s.accounts[client].locked && amount <= s.accounts[client].available {
                next == EngineState {
                    accounts: s.accounts.insert(
                        client,
                        AccountState {
                            available: s.accounts[client].available - amount,
                            held: s.accounts[client].held,
                            locked: false,
                        },
                    ),
                    history: s.history.insert(tx, TxRecord::Withdrawal { client }),
                }
            } else {
                next == s
            }
        }),
{
}

/// The transaction `tx` of `s` is a deposit of `client`, who has an
/// account, in state `state`.
pub open spec fn deposit_in_state(s: EngineState, client: u16, tx: u32, state: DepositState) -> bool {
    &&& s.history.contains_key(tx)
    &&& s.accounts.contains_key(client)
    &&& s.history[tx] is Deposit
    &&& s.history[tx]->Deposit_client == client
    &&& s.history[tx]->Deposit_state == state
}

/// A dispute that names an actioned deposit of the requesting client, who
/// has an account, always takes effect, whatever the account already holds:
/// the deposit's amount moves from available to held and the deposit is in
/// dispute. Every other dispute changes nothing.
pub proof fn lemma_dispute_effect(s: EngineState, client: u16, tx: u32, amount: int)
    ensures
        s.accounts.contains_key(client) && s.history.contains_key(tx) && s.history[tx]
            == (TxRecord::Deposit { client, amount, state: DepositState::Actioned }) ==> apply(
            s,
            client,
            tx,
            Action::Dispute,
        ) == (EngineState {
            accounts: s.accounts.insert(
                client,
                AccountState {
                    available: s.accounts[client].available - amount,
                    held: s.accounts[client].held + amount,
                    locked: s.accounts[client].locked,
                },
            ),
            history: s.history.insert(
                tx,
                TxRecord::Deposit { client, amount, state: DepositState::InDispute },
            ),
        }),
        !deposit_in_state(s, client, tx, DepositState::Actioned) ==> apply(s, client, tx, Action::Dispute) == s,
{
}

/// A resolution of a disputed deposit of the requesting client always takes
/// effect: the amount moves from held back to available and the deposit is
/// actioned again. A chargeback of it takes the amount out of held, locks the
/// account and marks the deposit charged back; available stays. Otherwise
/// both change nothing.
pub proof fn lemma_resolve_and_chargeback_effect(s: EngineState, client: u16, tx: u32, amount: int)
    ensures
        s.accounts.contains_key(client) && s.history.contains_key(tx) && s.history[tx]
            == (TxRecord::Deposit { client, amount, state: DepositState::InDispute }) ==> {
            &&& apply(s, client, tx, Action::Resolve) == (EngineState {
                accounts: s.accounts.insert(
                    client,
                    AccountState {
                        available: s.accounts[client].available + amount,
                        held: s.accounts[client].held - amount,
                        locked: s.accounts[client].locked,
                    },
                ),
                history: s.history.insert(
                    tx,
                    TxRecord::Deposit { client, amount, state: DepositState::Actioned },
                ),
            })
            &&& apply(s, client, tx, Action::Chargeback) == (EngineState {
                accounts: s.accounts.insert(
                    client,
                    AccountState {
                        available: s.accounts[client].available,
                        held: s.accounts[client].held - amount,
                        locked: true,
                    },
                ),
                history: s.history.insert(
                    tx,
                    TxRecord::Deposit { client, amount, state: DepositState::ChargedBack },
                ),
            })
        },
        !deposit_in_state(s, client, tx, DepositState::InDispute) ==> {
            &&& apply(s, client, tx, Action::Resolve) == s
            &&& apply(s, client, tx, Action::Chargeback) == s
        },
{
}

} // verus!
