//! Core payments processing engine.
//!
//! Processes transactions in arrival order, maintains every client account
//! and an index of dispute-eligible deposits, and renders a deterministic
//! snapshot of the final account states.

use crate::account::ClientAccount;
use crate::decimal::{
    amount_in_range, balance_in_range, dec_digits, format_units, lemma_parse_units_in_range,
    push_char, push_dec_digits, Decimal4,
};
use crate::transaction::{
    amount_view, spec_parse_record, ParsedTransaction, StoredTransaction, TransactionRecord, TxKind,
};
use vstd::prelude::*;

verus! {

/// The engine state as the contracts see it: the account list, kept sorted
/// by client, and the deposit index in arrival order.
#[verifier::ext_equal]
pub struct EngineState {
    pub accounts: Seq<ClientAccount>,
    pub transactions: Seq<StoredTransaction>,
}

/// The payments processing engine.
///
/// Accounts are kept sorted by client identifier, so the final snapshot is
/// deterministic; stored deposits are kept in arrival order.
pub struct PaymentsEngine {
    /// Client accounts, sorted strictly ascending by client identifier.
    pub accounts: Vec<ClientAccount>,
    /// Stored deposits for dispute, resolve and chargeback reference.
    pub transactions: Vec<StoredTransaction>,
}

impl View for PaymentsEngine {
    type V = EngineState;

    open spec fn view(&self) -> EngineState {
        EngineState { accounts: self.accounts@, transactions: self.transactions@ }
    }
}

// ---------------------------------------------------------------------------
// Lookups into the two sequences.
// ---------------------------------------------------------------------------
/// The first index holding the client's account, or -1.
pub open spec fn find_client(s: Seq<ClientAccount>, c: u16) -> int
    decreases s.len(),
{
    if s.len() == 0 {
        -1
    } else if s[0].client == c {
        0
    } else {
        let r = find_client(s.drop_first(), c);
        if r == -1 {
            -1
        } else {
            r + 1
        }
    }
}

/// The first index holding the transaction, or -1.
pub open spec fn find_tx(s: Seq<StoredTransaction>, tx_id: u32) -> int
    decreases s.len(),
{
    if s.len() == 0 {
        -1
    } else if s[0].tx_id == tx_id {
        0
    } else {
        let r = find_tx(s.drop_first(), tx_id);
        if r == -1 {
            -1
        } else {
            r + 1
        }
    }
}

/// Whether some account belongs to the client.
pub open spec fn has_client(s: Seq<ClientAccount>, c: u16) -> bool {
    exists|i: int| 0 <= i < s.len() && (#[trigger] s[i]).client == c
}

/// The position at which a fresh account for the client is inserted: before
/// the first account with a greater client identifier.
pub open spec fn insert_pos(s: Seq<ClientAccount>, c: u16) -> int
    decreases s.len(),
{
    if s.len() == 0 {
        0
    } else if s[0].client > c {
        0
    } else {
        1 + insert_pos(s.drop_first(), c)
    }
}

pub proof fn lemma_find_client(s: Seq<ClientAccount>, c: u16)
    ensures
        find_client(s, c) == -1 <==> !has_client(s, c),
        find_client(s, c) != -1 ==> 0 <= find_client(s, c) < s.len() && s[find_client(
            s,
            c,
        )].client == c && (forall|i: int| 0 <= i < find_client(s, c) ==> (#[trigger] s[i]).client
            != c),
    decreases s.len(),
{
    if s.len() > 0 && s[0].client != c {
        lemma_find_client(s.drop_first(), c);
        let q = s.drop_first();
        assert(forall|i: int| 0 <= i < q.len() ==> #[trigger] q[i] == s[i + 1]);
        if find_client(q, c) == -1 {
            assert forall|i: int| 0 <= i < s.len() implies (#[trigger] s[i]).client != c by {
                if i > 0 {
                    assert(s[i] == q[i - 1]);
                }
            }
        } else {
            assert(s[find_client(s, c)] == q[find_client(q, c)]);
            assert forall|i: int| 0 <= i < find_client(s, c) implies (#[trigger] s[i]).client
                != c by {
                if i > 0 {
                    assert(s[i] == q[i - 1]);
                }
            }
        }
    }
}

/// The first index with a matching client is `find_client`.
pub proof fn lemma_find_client_is(s: Seq<ClientAccount>, c: u16, i: int)
    requires
        0 <= i < s.len(),
        s[i].client == c,
        forall|j: int| 0 <= j < i ==> (#[trigger] s[j]).client != c,
    ensures
        find_client(s, c) == i,
{
    lemma_find_client(s, c);
    let f = find_client(s, c);
    if f < i {
        assert(s[f].client != c);
        assert(false);
    }
    if i < f {
        assert(s[i].client != c);
        assert(false);
    }
}

pub proof fn lemma_find_tx(s: Seq<StoredTransaction>, tx_id: u32)
    ensures
        find_tx(s, tx_id) == -1 ==> forall|i: int|
            0 <= i < s.len() ==> (#[trigger] s[i]).tx_id != tx_id,
        find_tx(s, tx_id) != -1 ==> 0 <= find_tx(s, tx_id) < s.len() && s[find_tx(
            s,
            tx_id,
        )].tx_id == tx_id && (forall|i: int|
            0 <= i < find_tx(s, tx_id) ==> (#[trigger] s[i]).tx_id != tx_id),
    decreases s.len(),
{
    if s.len() > 0 && s[0].tx_id != tx_id {
        lemma_find_tx(s.drop_first(), tx_id);
        let q = s.drop_first();
        assert(forall|i: int| 0 <= i < q.len() ==> #[trigger] q[i] == s[i + 1]);
        if find_tx(q, tx_id) == -1 {
            assert forall|i: int| 0 <= i < s.len() implies (#[trigger] s[i]).tx_id != tx_id by {
                if i > 0 {
                    assert(s[i] == q[i - 1]);
                }
            }
        } else {
            assert(s[find_tx(s, tx_id)] == q[find_tx(q, tx_id)]);
            assert forall|i: int| 0 <= i < find_tx(s, tx_id) implies (#[trigger] s[i]).tx_id
                != tx_id by {
                if i > 0 {
                    assert(s[i] == q[i - 1]);
                }
            }
        }
    }
}

/// The first index with a matching transaction is `find_tx`.
pub proof fn lemma_find_tx_is(s: Seq<StoredTransaction>, tx_id: u32, i: int)
    requires
        0 <= i < s.len(),
        s[i].tx_id == tx_id,
        forall|j: int| 0 <= j < i ==> (#[trigger] s[j]).tx_id != tx_id,
    ensures
        find_tx(s, tx_id) == i,
{
    lemma_find_tx(s, tx_id);
    let f = find_tx(s, tx_id);
    if f == -1 {
        assert(s[i].tx_id != tx_id);
        assert(false);
    }
    if f < i {
        assert(s[f].tx_id != tx_id);
        assert(false);
    }
    if i < f {
        assert(s[i].tx_id != tx_id);
        assert(false);
    }
}

/// The insert position is where every earlier client is at most `c` and
/// every later one is greater.
pub proof fn lemma_insert_pos_is(s: Seq<ClientAccount>, c: u16, i: int)
    requires
        0 <= i <= s.len(),
        forall|j: int| 0 <= j < i ==> (#[trigger] s[j]).client <= c,
        i < s.len() ==> s[i].client > c,
    ensures
        insert_pos(s, c) == i,
    decreases s.len(),
{
    if s.len() > 0 && s[0].client <= c {
        let q = s.drop_first();
        assert(forall|j: int| 0 <= j < q.len() ==> #[trigger] q[j] == s[j + 1]);
        assert(i > 0);
        lemma_insert_pos_is(q, c, i - 1);
    }
}

/// Two account lists with the same clients have the same lookup results.
pub proof fn lemma_find_client_same(s1: Seq<ClientAccount>, s2: Seq<ClientAccount>, c: u16)
    requires
        s1.len() == s2.len(),
        forall|i: int| 0 <= i < s1.len() ==> (#[trigger] s1[i]).client == (#[trigger] s2[i]).client,
    ensures
        find_client(s1, c) == find_client(s2, c),
{
    lemma_find_client(s1, c);
    lemma_find_client(s2, c);
    let f1 = find_client(s1, c);
    if f1 == -1 {
        if find_client(s2, c) != -1 {
            assert(s1[find_client(s2, c)].client == c);
            assert(false);
        }
    } else {
        assert(s2[f1].client == c);
        assert forall|j: int| 0 <= j < f1 implies (#[trigger] s2[j]).client != c by {
            assert(s1[j].client != c);
        }
        lemma_find_client_is(s2, c, f1);
    }
}

/// Two transaction lists with the same identifiers have the same lookups.
pub proof fn lemma_find_tx_same(s1: Seq<StoredTransaction>, s2: Seq<StoredTransaction>, id: u32)
    requires
        s1.len() == s2.len(),
        forall|i: int| 0 <= i < s1.len() ==> (#[trigger] s1[i]).tx_id == (#[trigger] s2[i]).tx_id,
    ensures
        find_tx(s1, id) == find_tx(s2, id),
{
    lemma_find_tx(s1, id);
    lemma_find_tx(s2, id);
    let f1 = find_tx(s1, id);
    if f1 == -1 {
        if find_tx(s2, id) != -1 {
            assert(s1[find_tx(s2, id)].tx_id == id);
            assert(false);
        }
    } else {
        assert(s2[f1].tx_id == id);
        assert forall|j: int| 0 <= j < f1 implies (#[trigger] s2[j]).tx_id != id by {
            assert(s1[j].tx_id != id);
        }
        lemma_find_tx_is(s2, id, f1);
    }
}

/// Inserting an account for another client does not affect what is found
/// for `c`.
pub proof fn lemma_find_client_after_insert(
    s: Seq<ClientAccount>,
    p: int,
    a: ClientAccount,
    c: u16,
)
    requires
        0 <= p <= s.len(),
        a.client != c,
    ensures
        has_client(s.insert(p, a), c) == has_client(s, c),
        has_client(s, c) ==> s.insert(p, a)[find_client(s.insert(p, a), c)] == s[find_client(
            s,
            c,
        )],
{
    let s2 = s.insert(p, a);
    s.insert_ensures(p, a);
    lemma_find_client(s, c);
    lemma_find_client(s2, c);
    if has_client(s, c) {
        let f = find_client(s, c);
        if p <= f {
            assert(s2[f + 1] == s[f]);
            assert forall|j: int| 0 <= j < f + 1 implies (#[trigger] s2[j]).client != c by {
                if j < p {
                    assert(s2[j] == s[j]);
                } else if j > p {
                    assert(s2[j] == s[j - 1]);
                }
            }
            lemma_find_client_is(s2, c, f + 1);
            assert(has_client(s2, c));
        } else {
            assert(s2[f] == s[f]);
            assert forall|j: int| 0 <= j < f implies (#[trigger] s2[j]).client != c by {
                assert(s2[j] == s[j]);
            }
            lemma_find_client_is(s2, c, f);
            assert(has_client(s2, c));
        }
    } else {
        if has_client(s2, c) {
            let w = choose|w: int| 0 <= w < s2.len() && (#[trigger] s2[w]).client == c;
            if w < p {
                assert(s[w].client == c);
            } else if w > p {
                assert(s[w - 1].client == c);
            }
            assert(false);
        }
    }
}

/// Guaranteeing an account for one client does not affect what is found
/// for another, and keeps the looked-up account of `c` itself unchanged
/// when it already exists.
pub proof fn lemma_ensure_account_preserves(s: Seq<ClientAccount>, c1: u16, c: u16)
    ensures
        c1 != c ==> has_client(ensure_account(s, c1), c) == has_client(s, c),
        c1 != c && has_client(s, c) ==> ensure_account(s, c1)[find_client(
            ensure_account(s, c1),
            c,
        )] == s[find_client(s, c)],
        has_client(s, c1) ==> ensure_account(s, c1) == s,
{
    if !has_client(s, c1) && c1 != c {
        lemma_insert_pos_bounds(s, c1);
        lemma_find_client_after_insert(s, insert_pos(s, c1), new_account(c1), c);
    }
}

pub proof fn lemma_insert_pos_bounds(s: Seq<ClientAccount>, c: u16)
    ensures
        0 <= insert_pos(s, c) <= s.len(),
    decreases s.len(),
{
    if s.len() > 0 && s[0].client <= c {
        lemma_insert_pos_bounds(s.drop_first(), c);
    }
}

// ---------------------------------------------------------------------------
// Engine well-formedness.
// ---------------------------------------------------------------------------
/// Accounts are sorted strictly ascending by client identifier.
pub open spec fn accounts_sorted(s: Seq<ClientAccount>) -> bool {
    forall|i: int, j: int|
        0 <= i < j < s.len() ==> (#[trigger] s[i]).client < (#[trigger] s[j]).client
}

/// The engine invariant over a state: accounts sorted and well-formed,
/// stored transactions unique, in amount range, and owned by some account.
pub open spec fn state_wf(s: EngineState) -> bool {
    &&& accounts_sorted(s.accounts)
    &&& forall|i: int| 0 <= i < s.accounts.len() ==> (#[trigger] s.accounts[i]).wf()
    &&& forall|i: int, j: int|
        0 <= i < j < s.transactions.len() ==> (#[trigger] s.transactions[i]).tx_id != (
        #[trigger] s.transactions[j]).tx_id
    &&& forall|i: int|
        0 <= i < s.transactions.len() ==> amount_in_range((#[trigger] s.transactions[i]).amount@)
    &&& forall|i: int|
        0 <= i < s.transactions.len() ==> has_client(
            s.accounts,
            (#[trigger] s.transactions[i]).client,
        )
}

// ---------------------------------------------------------------------------
// The state machine: what one transaction does to the engine state.
// ---------------------------------------------------------------------------
/// A fresh account with zero balances.
pub open spec fn new_account(c: u16) -> ClientAccount {
    ClientAccount {
        client: c,
        available: Decimal4 { units: 0 },
        held: Decimal4 { units: 0 },
        total: Decimal4 { units: 0 },
        locked: false,
    }
}

/// The account list once the client is guaranteed an account: unchanged if
/// one exists, else with a fresh zeroed account at its sorted position.
pub open spec fn ensure_account(s: Seq<ClientAccount>, c: u16) -> Seq<ClientAccount> {
    if has_client(s, c) {
        s
    } else {
        s.insert(insert_pos(s, c), new_account(c))
    }
}

/// Whether depositing keeps the balances inside the arithmetic envelope.
pub open spec fn dep_ok(a: ClientAccount, amt: Decimal4) -> bool {
    balance_in_range(a.available@ + amt@) && balance_in_range(a.total@ + amt@)
}

pub open spec fn after_deposit(a: ClientAccount, amt: Decimal4) -> ClientAccount {
    ClientAccount {
        available: Decimal4 { units: (a.available@ + amt@) as i128 },
        total: Decimal4 { units: (a.total@ + amt@) as i128 },
        ..a
    }
}

/// Whether withdrawing keeps the balances inside the arithmetic envelope.
pub open spec fn wd_ok(a: ClientAccount, amt: Decimal4) -> bool {
    balance_in_range(a.available@ - amt@) && balance_in_range(a.total@ - amt@)
}

pub open spec fn after_withdraw(a: ClientAccount, amt: Decimal4) -> ClientAccount {
    ClientAccount {
        available: Decimal4 { units: (a.available@ - amt@) as i128 },
        total: Decimal4 { units: (a.total@ - amt@) as i128 },
        ..a
    }
}

/// Whether holding keeps the balances inside the arithmetic envelope.
pub open spec fn hold_ok(a: ClientAccount, amt: Decimal4) -> bool {
    balance_in_range(a.available@ - amt@) && balance_in_range(a.held@ + amt@)
}

pub open spec fn after_hold(a: ClientAccount, amt: Decimal4) -> ClientAccount {
    ClientAccount {
        available: Decimal4 { units: (a.available@ - amt@) as i128 },
        held: Decimal4 { units: (a.held@ + amt@) as i128 },
        ..a
    }
}

/// Whether releasing keeps the balances inside the arithmetic envelope.
pub open spec fn rel_ok(a: ClientAccount, amt: Decimal4) -> bool {
    balance_in_range(a.available@ + amt@) && balance_in_range(a.held@ - amt@)
}

pub open spec fn after_release(a: ClientAccount, amt: Decimal4) -> ClientAccount {
    ClientAccount {
        available: Decimal4 { units: (a.available@ + amt@) as i128 },
        held: Decimal4 { units: (a.held@ - amt@) as i128 },
        ..a
    }
}

/// Whether a chargeback keeps the balances inside the arithmetic envelope.
pub open spec fn cb_ok(a: ClientAccount, amt: Decimal4) -> bool {
    balance_in_range(a.held@ - amt@) && balance_in_range(a.total@ - amt@)
}

pub open spec fn after_chargeback(a: ClientAccount, amt: Decimal4) -> ClientAccount {
    ClientAccount {
        held: Decimal4 { units: (a.held@ - amt@) as i128 },
        total: Decimal4 { units: (a.total@ - amt@) as i128 },
        locked: true,
        ..a
    }
}

/// A deposit: the account is created if missing; the record is dropped when
/// the account is locked, the transaction identifier is already taken, or
/// the arithmetic envelope would be left; otherwise the amount is credited
/// and the deposit is stored for dispute reference.
pub open spec fn step_deposit(
    s: EngineState,
    tx_id: u32,
    client: u16,
    amount: Decimal4,
) -> EngineState {
    let accs = ensure_account(s.accounts, client);
    let i = find_client(accs, client);
    let a = accs[i];
    if a.locked {
        EngineState { accounts: accs, transactions: s.transactions }
    } else if find_tx(s.transactions, tx_id) >= 0 {
        EngineState { accounts: accs, transactions: s.transactions }
    } else if !dep_ok(a, amount) {
        EngineState { accounts: accs, transactions: s.transactions }
    } else {
        EngineState {
            accounts: accs.update(i, after_deposit(a, amount)),
            transactions: s.transactions.push(
                StoredTransaction { tx_id, client, amount, under_dispute: false },
            ),
        }
    }
}

/// A withdrawal: the account is created if missing; the record is dropped
/// when the account is locked, the transaction identifier is already taken,
/// the arithmetic envelope would be left, or `available` is below the
/// amount; otherwise the amount is debited. Withdrawals are never stored.
pub open spec fn step_withdrawal(
    s: EngineState,
    tx_id: u32,
    client: u16,
    amount: Decimal4,
) -> EngineState {
    let accs = ensure_account(s.accounts, client);
    let i = find_client(accs, client);
    let a = accs[i];
    if a.locked {
        EngineState { accounts: accs, transactions: s.transactions }
    } else if find_tx(s.transactions, tx_id) >= 0 {
        EngineState { accounts: accs, transactions: s.transactions }
    } else if !wd_ok(a, amount) {
        EngineState { accounts: accs, transactions: s.transactions }
    } else if a.available@ < amount@ {
        EngineState { accounts: accs, transactions: s.transactions }
    } else {
        EngineState { accounts: accs.update(i, after_withdraw(a, amount)), transactions: s.transactions }
    }
}

/// A dispute: dropped when the named account is locked, the transaction is
/// unknown, owned by another client, or already under dispute; otherwise
/// the stored amount moves from `available` to `held` and the stored
/// transaction is flagged.
pub open spec fn step_dispute(s: EngineState, tx_id: u32, client: u16) -> EngineState {
    let ia = find_client(s.accounts, client);
    if ia >= 0 && s.accounts[ia].locked {
        s
    } else {
        let it = find_tx(s.transactions, tx_id);
        if it < 0 {
            s
        } else {
            let st = s.transactions[it];
            if st.client != client || st.under_dispute || ia < 0 {
                s
            } else {
                let a = s.accounts[ia];
                if !hold_ok(a, st.amount) {
                    s
                } else {
                    EngineState {
                        accounts: s.accounts.update(ia, after_hold(a, st.amount)),
                        transactions: s.transactions.update(
                            it,
                            StoredTransaction { under_dispute: true, ..st },
                        ),
                    }
                }
            }
        }
    }
}

/// A resolve: dropped when the named account is locked, the transaction is
/// unknown, owned by another client, or not under dispute; otherwise the
/// stored amount moves back from `held` to `available` and the flag clears.
pub open spec fn step_resolve(s: EngineState, tx_id: u32, client: u16) -> EngineState {
    let ia = find_client(s.accounts, client);
    if ia >= 0 && s.accounts[ia].locked {
        s
    } else {
        let it = find_tx(s.transactions, tx_id);
        if it < 0 {
            s
        } else {
            let st = s.transactions[it];
            if st.client != client || !st.under_dispute || ia < 0 {
                s
            } else {
                let a = s.accounts[ia];
                if !rel_ok(a, st.amount) {
                    s
                } else {
                    EngineState {
                        accounts: s.accounts.update(ia, after_release(a, st.amount)),
                        transactions: s.transactions.update(
                            it,
                            StoredTransaction { under_dispute: false, ..st },
                        ),
                    }
                }
            }
        }
    }
}

/// A chargeback: dropped when the named account is locked, the transaction
/// is unknown, owned by another client, or not under dispute; otherwise the
/// stored amount leaves `held` and `total`, the flag clears, and the
/// account locks.
pub open spec fn step_chargeback(s: EngineState, tx_id: u32, client: u16) -> EngineState {
    let ia = find_client(s.accounts, client);
    if ia >= 0 && s.accounts[ia].locked {
        s
    } else {
        let it = find_tx(s.transactions, tx_id);
        if it < 0 {
            s
        } else {
            let st = s.transactions[it];
            if st.client != client || !st.under_dispute || ia < 0 {
                s
            } else {
                let a = s.accounts[ia];
                if !cb_ok(a, st.amount) {
                    s
                } else {
                    EngineState {
                        accounts: s.accounts.update(ia, after_chargeback(a, st.amount)),
                        transactions: s.transactions.update(
                            it,
                            StoredTransaction { under_dispute: false, ..st },
                        ),
                    }
                }
            }
        }
    }
}

/// What one parsed transaction does to the engine state.
pub open spec fn spec_step(s: EngineState, t: ParsedTransaction) -> EngineState {
    match t.kind {
        TxKind::Deposit(a) => step_deposit(s, t.tx_id, t.client, a),
        TxKind::Withdrawal(a) => step_withdrawal(s, t.tx_id, t.client, a),
        TxKind::Dispute => step_dispute(s, t.tx_id, t.client),
        TxKind::Resolve => step_resolve(s, t.tx_id, t.client),
        TxKind::Chargeback => step_chargeback(s, t.tx_id, t.client),
    }
}

/// What one raw record does to the engine state: parsed and applied, or
/// nothing when it is malformed.
pub open spec fn spec_ingest(
    s: EngineState,
    ty: Seq<char>,
    client: u16,
    tx: u32,
    amount: Option<Seq<char>>,
) -> EngineState {
    match spec_parse_record(ty, client, tx, amount) {
        Some(t) => spec_step(s, t),
        None => s,
    }
}

// ---------------------------------------------------------------------------
// Snapshot rendering.
// ---------------------------------------------------------------------------
/// The lowercase text of a boolean.
pub open spec fn bool_text(b: bool) -> Seq<char> {
    if b {
        seq!['t', 'r', 'u', 'e']
    } else {
        seq!['f', 'a', 'l', 's', 'e']
    }
}

/// One snapshot row: client, available, held, total, locked.
pub open spec fn spec_row(a: ClientAccount) -> Seq<char> {
    dec_digits(a.client as nat) + seq![','] + format_units(a.available@) + seq![','] + format_units(
        a.held@,
    ) + seq![','] + format_units(a.total@) + seq![','] + bool_text(a.locked) + seq!['\n']
}

/// The rows of the given accounts, in order.
pub open spec fn spec_rows(s: Seq<ClientAccount>) -> Seq<char>
    decreases s.len(),
{
    if s.len() == 0 {
        Seq::empty()
    } else {
        spec_rows(s.drop_last()) + spec_row(s.last())
    }
}

/// The header row of the snapshot.
pub open spec fn header_text() -> Seq<char> {
    seq![
        'c', 'l', 'i', 'e', 'n', 't', ',', 'a', 'v', 'a', 'i', 'l', 'a', 'b', 'l', 'e', ',', 'h',
        'e', 'l', 'd', ',', 't', 'o', 't', 'a', 'l', ',', 'l', 'o', 'c', 'k', 'e', 'd', '\n',
    ]
}

/// The whole snapshot: the header, then one row per account in order.
pub open spec fn spec_snapshot(s: Seq<ClientAccount>) -> Seq<char> {
    header_text() + spec_rows(s)
}

/// Amounts carried by a parsed transaction are inside the parse range.
pub open spec fn tx_amount_in_range(t: ParsedTransaction) -> bool {
    match t.kind {
        TxKind::Deposit(a) => amount_in_range(a@),
        TxKind::Withdrawal(a) => amount_in_range(a@),
        _ => true,
    }
}

impl PaymentsEngine {
    /// The engine invariant.
    pub open spec fn wf(&self) -> bool {
        state_wf(self@)
    }

    /// Creates a new empty engine.
    pub fn new() -> (r: PaymentsEngine)
        ensures
            r.wf(),
            r@.accounts == Seq::<ClientAccount>::empty(),
            r@.transactions == Seq::<StoredTransaction>::empty(),
    {
        let r = PaymentsEngine { accounts: Vec::new(), transactions: Vec::new() };
        proof {
            assert(r@.accounts =~= Seq::<ClientAccount>::empty());
            assert(r@.transactions =~= Seq::<StoredTransaction>::empty());
        }
        r
    }

    /// Finds the index of the client's account, if there is one.
    fn find_account_index(&self, client: u16) -> (r: Option<usize>)
        ensures
            match r {
                Some(i) => find_client(self@.accounts, client) == i as int,
                None => find_client(self@.accounts, client) == -1,
            },
    {
        let n = self.accounts.len();
        let mut i: usize = 0;
        while i < n
            invariant
                0 <= i <= n,
                n == self@.accounts.len(),
                forall|j: int| 0 <= j < i ==> (#[trigger] self@.accounts[j]).client != client,
            decreases n - i,
        {
            if self.accounts[i].client == client {
                proof {
                    lemma_find_client_is(self@.accounts, client, i as int);
                }
                return Some(i);
            }
            i += 1;
        }
        proof {
            lemma_find_client(self@.accounts, client);
            if find_client(self@.accounts, client) != -1 {
                assert(self@.accounts[find_client(self@.accounts, client)].client != client);
                assert(false);
            }
        }
        None
    }

    /// Finds the index of the stored transaction, if there is one.
    fn find_tx_index(&self, tx_id: u32) -> (r: Option<usize>)
        ensures
            match r {
                Some(i) => find_tx(self@.transactions, tx_id) == i as int,
                None => find_tx(self@.transactions, tx_id) == -1,
            },
    {
        let n = self.transactions.len();
        let mut i: usize = 0;
        while i < n
            invariant
                0 <= i <= n,
                n == self@.transactions.len(),
                forall|j: int| 0 <= j < i ==> (#[trigger] self@.transactions[j]).tx_id != tx_id,
            decreases n - i,
        {
            if self.transactions[i].tx_id == tx_id {
                proof {
                    lemma_find_tx_is(self@.transactions, tx_id, i as int);
                }
                return Some(i);
            }
            i += 1;
        }
        proof {
            lemma_find_tx(self@.transactions, tx_id);
            if find_tx(self@.transactions, tx_id) != -1 {
                assert(self@.transactions[find_tx(self@.transactions, tx_id)].tx_id != tx_id);
                assert(false);
            }
        }
        None
    }

    /// Ensures an account exists for the client, creating a zeroed one at
    /// its sorted position if needed; returns the account's index.
    fn ensure_account_exists(&mut self, client: u16) -> (i: usize)
        requires
            old(self).wf(),
        ensures
            final (self).wf(),
            final (self)@.accounts == ensure_account(old(self)@.accounts, client),
            final (self)@.transactions == old(self)@.transactions,
            i as int == find_client(final (self)@.accounts, client),
            0 <= i < final (self)@.accounts.len(),
            final (self)@.accounts[i as int].client == client,
    {
        let ghost s0 = self@.accounts;
        let n = self.accounts.len();
        let mut i: usize = 0;
        while i < n && self.accounts[i].client < client
            invariant
                0 <= i <= n,
                n == self@.accounts.len(),
                self@.accounts == s0,
                forall|j: int| 0 <= j < i ==> (#[trigger] s0[j]).client < client,
            decreases n - i,
        {
            i += 1;
        }
        if i < n && self.accounts[i].client == client {
            proof {
                lemma_find_client_is(s0, client, i as int);
                assert(has_client(s0, client));
            }
            i
        } else {
            proof {
                assert forall|j: int| 0 <= j < s0.len() implies (#[trigger] s0[j]).client
                    != client by {
                    if j >= i && (i as int) < s0.len() {
                        assert(s0[i as int].client > client || s0[i as int].client == client
                            || s0[i as int].client < client);
                        if j > i {
                            assert(s0[i as int].client < s0[j].client);
                        }
                    }
                }
                assert(!has_client(s0, client));
                lemma_insert_pos_is(s0, client, i as int);
            }
            self.accounts.insert(i, ClientAccount::new(client));
            proof {
                let s1 = self@.accounts;
                assert(s1 == s0.insert(i as int, new_account(client)));
                s0.insert_ensures(i as int, new_account(client));
                assert forall|p: int, q: int| 0 <= p < q < s1.len() implies (
                #[trigger] s1[p]).client < (#[trigger] s1[q]).client by {
                    if q < i {
                        assert(s1[p] == s0[p] && s1[q] == s0[q]);
                    } else if p > i {
                        assert(s1[p] == s0[p - 1] && s1[q] == s0[q - 1]);
                    } else if p < i && q == i {
                        assert(s1[p] == s0[p]);
                    } else if p < i && q > i {
                        assert(s1[p] == s0[p] && s1[q] == s0[q - 1]);
                    } else if p == i && q > i {
                        assert(s1[q] == s0[q - 1]);
                        assert(s0[q - 1].client > client);
                    }
                }
                assert forall|k: int| 0 <= k < s1.len() implies (#[trigger] s1[k]).wf() by {
                    if k < i {
                        assert(s1[k] == s0[k]);
                    } else if k > i {
                        assert(s1[k] == s0[k - 1]);
                    } else {
                        assert(s1[k] == new_account(client));
                    }
                }
                assert forall|k: int| 0 <= k < self@.transactions.len() implies has_client(
                    s1,
                    (#[trigger] self@.transactions[k]).client,
                ) by {
                    let c2 = self@.transactions[k].client;
                    assert(old(self)@.transactions[k] == self@.transactions[k]);
                    assert(has_client(s0, (old(self)@.transactions[k]).client));
                    let w = choose|w: int| 0 <= w < s0.len() && (#[trigger] s0[w]).client == c2;
                    if w < i {
                        assert(s1[w].client == c2);
                    } else {
                        assert(s1[w + 1].client == c2);
                    }
                }
                assert forall|j: int| 0 <= j < i implies (#[trigger] s1[j]).client != client by {
                    assert(s1[j] == s0[j]);
                }
                lemma_find_client_is(s1, client, i as int);
                assert(self@.transactions == old(self)@.transactions);
                assert forall|p: int, q: int|
                    0 <= p < q < self@.transactions.len() implies (
                #[trigger] self@.transactions[p]).tx_id != (#[trigger] self@.transactions[q]).tx_id by {
                    assert(old(self)@.transactions[p].tx_id != old(self)@.transactions[q].tx_id);
                }
                assert forall|k: int| 0 <= k < self@.transactions.len() implies amount_in_range(
                    (#[trigger] self@.transactions[k]).amount@,
                ) by {
                    assert(amount_in_range(old(self)@.transactions[k].amount@));
                }
            }
            i
        }
    }

    /// Processes a deposit transaction.
    fn process_deposit(&mut self, tx_id: u32, client: u16, amount: Decimal4)
        requires
            old(self).wf(),
            amount_in_range(amount@),
        ensures
            final (self).wf(),
            final (self)@ == step_deposit(old(self)@, tx_id, client, amount),
    {
        let i = self.ensure_account_exists(client);
        let ghost accs = self@.accounts;
        let ghost a0 = self@.accounts[i as int];
        if self.accounts[i].is_locked() {
            return;
        }
        if let Some(_) = self.find_tx_index(tx_id) {
            return;
        }
        let na = self.accounts[i].available.plus(amount);
        let nt = self.accounts[i].total.plus(amount);
        if !(na.in_balance_range() && nt.in_balance_range()) {
            return;
        }
        let _ok = self.accounts[i].deposit(amount);
        self.transactions.push(StoredTransaction::from_deposit(tx_id, client, amount));
        proof {
            let s2 = self@;
            assert(s2.accounts[i as int] == after_deposit(a0, amount));
            assert(s2.accounts =~= accs.update(i as int, after_deposit(a0, amount)));
            assert(s2.transactions =~= old(self)@.transactions.push(
                StoredTransaction { tx_id, client, amount, under_dispute: false },
            ));
            assert(s2 =~= step_deposit(old(self)@, tx_id, client, amount));
            Self::lemma_wf_after_deposit(
                self@,
                old(self)@,
                accs,
                a0,
                i as int,
                tx_id,
                client,
                amount,
            );
        }
    }

    /// The deposit update preserves the engine invariant.
    proof fn lemma_wf_after_deposit(
        s2: EngineState,
        s0: EngineState,
        accs: Seq<ClientAccount>,
        a0: ClientAccount,
        i: int,
        tx_id: u32,
        client: u16,
        amount: Decimal4,
    )
        requires
            state_wf(s0),
            accs == ensure_account(s0.accounts, client),
            state_wf(EngineState { accounts: accs, transactions: s0.transactions }),
            0 <= i < accs.len(),
            a0 == accs[i],
            a0.client == client,
            !a0.locked,
            find_tx(s0.transactions, tx_id) == -1,
            amount_in_range(amount@),
            dep_ok(a0, amount),
            s2.accounts == accs.update(i, after_deposit(a0, amount)),
            s2.transactions == s0.transactions.push(
                StoredTransaction { tx_id, client, amount, under_dispute: false },
            ),
        ensures
            state_wf(s2),
    {
        let s1 = s2.accounts;
        let t1 = s2.transactions;
        lemma_find_tx(s0.transactions, tx_id);
        assert forall|p: int, q: int| 0 <= p < q < s1.len() implies (#[trigger] s1[p]).client < (
        #[trigger] s1[q]).client by {
            assert(accs[p].client < accs[q].client);
            assert(s1[p].client == accs[p].client && s1[q].client == accs[q].client);
        }
        assert forall|k: int| 0 <= k < s1.len() implies (#[trigger] s1[k]).wf() by {
            if k != i {
                assert(s1[k] == accs[k]);
            }
        }
        assert forall|p: int, q: int| 0 <= p < q < t1.len() implies (#[trigger] t1[p]).tx_id != (
        #[trigger] t1[q]).tx_id by {
            if q < t1.len() - 1 {
                assert(t1[p] == s0.transactions[p] && t1[q] == s0.transactions[q]);
            } else {
                assert(t1[p] == s0.transactions[p]);
                assert(s0.transactions[p].tx_id != tx_id);
            }
        }
        assert forall|k: int| 0 <= k < t1.len() implies amount_in_range(
            (#[trigger] t1[k]).amount@,
        ) by {
            if k < t1.len() - 1 {
                assert(t1[k] == s0.transactions[k]);
            }
        }
        assert forall|k: int| 0 <= k < t1.len() implies has_client(
            s1,
            (#[trigger] t1[k]).client,
        ) by {
            let c2 = t1[k].client;
            if k < t1.len() - 1 {
                assert(t1[k] == s0.transactions[k]);
                let smid = EngineState { accounts: accs, transactions: s0.transactions };
                assert(has_client(smid.accounts, (#[trigger] smid.transactions[k]).client));
                let w = choose|w: int| 0 <= w < accs.len() && (#[trigger] accs[w]).client == c2;
                assert(s1[w].client == c2);
            } else {
                assert(s1[i].client == c2);
            }
        }
    }

    /// Processes a withdrawal transaction.
    fn process_withdrawal(&mut self, tx_id: u32, client: u16, amount: Decimal4)
        requires
            old(self).wf(),
            amount_in_range(amount@),
        ensures
            final (self).wf(),
            final (self)@ == step_withdrawal(old(self)@, tx_id, client, amount),
    {
        let i = self.ensure_account_exists(client);
        let ghost accs = self@.accounts;
        let ghost a0 = self@.accounts[i as int];
        if self.accounts[i].is_locked() {
            return;
        }
        if let Some(_) = self.find_tx_index(tx_id) {
            return;
        }
        let na = self.accounts[i].available.minus(amount);
        let nt = self.accounts[i].total.minus(amount);
        if !(na.in_balance_range() && nt.in_balance_range()) {
            return;
        }
        let ok = self.accounts[i].withdraw(amount);
        proof {
            let s2 = self@;
            if ok {
                assert(s2.accounts[i as int] == after_withdraw(a0, amount));
                assert(s2.accounts =~= accs.update(i as int, after_withdraw(a0, amount)));
                assert(s2 =~= step_withdrawal(old(self)@, tx_id, client, amount));
                Self::lemma_wf_after_account_update(
                    self@,
                    EngineState { accounts: accs, transactions: old(self)@.transactions },
                    i as int,
                    after_withdraw(a0, amount),
                );
            } else {
                assert(s2.accounts =~= accs);
                assert(s2 =~= step_withdrawal(old(self)@, tx_id, client, amount));
            }
        }
    }

    /// Replacing one account with a well-formed account of the same client
    /// preserves the engine invariant.
    proof fn lemma_wf_after_account_update(s2: EngineState, s0: EngineState, i: int, a1: ClientAccount)
        requires
            state_wf(s0),
            0 <= i < s0.accounts.len(),
            a1.client == s0.accounts[i].client,
            a1.wf(),
            s2.accounts == s0.accounts.update(i, a1),
            s2.transactions == s0.transactions,
        ensures
            state_wf(s2),
    {
        let s1 = s2.accounts;
        let t1 = s2.transactions;
        assert forall|p: int, q: int| 0 <= p < q < s1.len() implies (#[trigger] s1[p]).client < (
        #[trigger] s1[q]).client by {
            assert(s0.accounts[p].client < s0.accounts[q].client);
            assert(s1[p].client == s0.accounts[p].client);
            assert(s1[q].client == s0.accounts[q].client);
        }
        assert forall|k: int| 0 <= k < s1.len() implies (#[trigger] s1[k]).wf() by {
            if k != i {
                assert(s1[k] == s0.accounts[k]);
            }
        }
        assert forall|p: int, q: int| 0 <= p < q < t1.len() implies (#[trigger] t1[p]).tx_id != (
        #[trigger] t1[q]).tx_id by {
            assert(s0.transactions[p].tx_id != s0.transactions[q].tx_id);
        }
        assert forall|k: int| 0 <= k < t1.len() implies amount_in_range(
            (#[trigger] t1[k]).amount@,
        ) by {
            assert(amount_in_range(s0.transactions[k].amount@));
        }
        assert forall|k: int| 0 <= k < t1.len() implies has_client(
            s1,
            (#[trigger] t1[k]).client,
        ) by {
            let c2 = t1[k].client;
            assert(has_client(s0.accounts, s0.transactions[k].client));
            let w = choose|w: int|
                0 <= w < s0.accounts.len() && (#[trigger] s0.accounts[w]).client == c2;
            assert(s1[w].client == c2);
        }
    }

    /// Replacing one account and one stored transaction, keeping the keys
    /// and the ownership, preserves the engine invariant.
    proof fn lemma_wf_after_lifecycle(
        s2: EngineState,
        s0: EngineState,
        ia: int,
        a1: ClientAccount,
        it: int,
        st1: StoredTransaction,
    )
        requires
            state_wf(s0),
            0 <= ia < s0.accounts.len(),
            a1.client == s0.accounts[ia].client,
            a1.wf(),
            0 <= it < s0.transactions.len(),
            st1.tx_id == s0.transactions[it].tx_id,
            st1.client == s0.transactions[it].client,
            st1.amount == s0.transactions[it].amount,
            s2.accounts == s0.accounts.update(ia, a1),
            s2.transactions == s0.transactions.update(it, st1),
        ensures
            state_wf(s2),
    {
        let s1 = s2.accounts;
        let t1 = s2.transactions;
        assert forall|p: int, q: int| 0 <= p < q < s1.len() implies (#[trigger] s1[p]).client < (
        #[trigger] s1[q]).client by {
            assert(s0.accounts[p].client < s0.accounts[q].client);
            assert(s1[p].client == s0.accounts[p].client);
            assert(s1[q].client == s0.accounts[q].client);
        }
        assert forall|k: int| 0 <= k < s1.len() implies (#[trigger] s1[k]).wf() by {
            if k != ia {
                assert(s1[k] == s0.accounts[k]);
            }
        }
        assert forall|p: int, q: int| 0 <= p < q < t1.len() implies (#[trigger] t1[p]).tx_id != (
        #[trigger] t1[q]).tx_id by {
            assert(s0.transactions[p].tx_id != s0.transactions[q].tx_id);
            assert(t1[p].tx_id == s0.transactions[p].tx_id);
            assert(t1[q].tx_id == s0.transactions[q].tx_id);
        }
        assert forall|k: int| 0 <= k < t1.len() implies amount_in_range(
            (#[trigger] t1[k]).amount@,
        ) by {
            assert(amount_in_range(s0.transactions[k].amount@));
            assert(t1[k].amount == s0.transactions[k].amount);
        }
        assert forall|k: int| 0 <= k < t1.len() implies has_client(
            s1,
            (#[trigger] t1[k]).client,
        ) by {
            let c2 = t1[k].client;
            assert(t1[k].client == s0.transactions[k].client);
            assert(has_client(s0.accounts, s0.transactions[k].client));
            let w = choose|w: int|
                0 <= w < s0.accounts.len() && (#[trigger] s0.accounts[w]).client == c2;
            assert(s1[w].client == c2);
        }
    }

    /// Processes a dispute transaction.
    ///
    /// A dispute moves the stored amount from `available` to `held`; if the
    /// client has withdrawn funds since the disputed deposit, `available`
    /// goes negative.
    fn process_dispute(&mut self, tx_id: u32, client: u16)
        requires
            old(self).wf(),
        ensures
            final (self).wf(),
            final (self)@ == step_dispute(old(self)@, tx_id, client),
    {
        let acct_idx = self.find_account_index(client);
        if let Some(ia0) = acct_idx {
            proof {
                lemma_find_client(old(self)@.accounts, client);
            }
            if self.accounts[ia0].is_locked() {
                return;
            }
        }
        let it = match self.find_tx_index(tx_id) {
            Some(it) => it,
            None => {
                return;
            },
        };
        proof {
            lemma_find_tx(old(self)@.transactions, tx_id);
        }
        let st_client = self.transactions[it].client;
        let st_amount = self.transactions[it].amount;
        if st_client != client {
            return;
        }
        if self.transactions[it].under_dispute {
            return;
        }
        let ia = match acct_idx {
            Some(ia) => ia,
            None => {
                proof {
                    assert(has_client(
                        old(self)@.accounts,
                        (#[trigger] old(self)@.transactions[it as int]).client,
                    ));
                    lemma_find_client(old(self)@.accounts, client);
                    assert(false);
                }
                return;
            },
        };
        proof {
            lemma_find_client(old(self)@.accounts, client);
            assert(amount_in_range((#[trigger] old(self)@.transactions[it as int]).amount@));
        }
        let na = self.accounts[ia].available.minus(st_amount);
        let nh = self.accounts[ia].held.plus(st_amount);
        if !(na.in_balance_range() && nh.in_balance_range()) {
            return;
        }
        let ghost accs = self@.accounts;
        let ghost a0 = self@.accounts[ia as int];
        let ghost st0 = self@.transactions[it as int];
        self.transactions[it] = StoredTransaction {
            tx_id,
            client: st_client,
            amount: st_amount,
            under_dispute: true,
        };
        let _ok = self.accounts[ia].hold(st_amount);
        proof {
            assert(self@.accounts[ia as int] == after_hold(a0, st_amount));
            assert(self@.accounts =~= accs.update(ia as int, after_hold(a0, st_amount)));
            assert(self@.transactions =~= old(self)@.transactions.update(
                it as int,
                (StoredTransaction { under_dispute: true, ..st0 }),
            ));
            assert(self@ =~= step_dispute(old(self)@, tx_id, client));
            Self::lemma_wf_after_lifecycle(
                self@,
                old(self)@,
                ia as int,
                after_hold(a0, st_amount),
                it as int,
                (StoredTransaction { under_dispute: true, ..st0 }),
            );
        }
    }

    /// Processes a resolve transaction: releases the held funds of a
    /// disputed deposit back to `available`.
    fn process_resolve(&mut self, tx_id: u32, client: u16)
        requires
            old(self).wf(),
        ensures
            final (self).wf(),
            final (self)@ == step_resolve(old(self)@, tx_id, client),
    {
        let acct_idx = self.find_account_index(client);
        if let Some(ia0) = acct_idx {
            proof {
                lemma_find_client(old(self)@.accounts, client);
            }
            if self.accounts[ia0].is_locked() {
                return;
            }
        }
        let it = match self.find_tx_index(tx_id) {
            Some(it) => it,
            None => {
                return;
            },
        };
        proof {
            lemma_find_tx(old(self)@.transactions, tx_id);
        }
        let st_client = self.transactions[it].client;
        let st_amount = self.transactions[it].amount;
        if st_client != client {
            return;
        }
        if !self.transactions[it].under_dispute {
            return;
        }
        let ia = match acct_idx {
            Some(ia) => ia,
            None => {
                proof {
                    assert(has_client(
                        old(self)@.accounts,
                        (#[trigger] old(self)@.transactions[it as int]).client,
                    ));
                    lemma_find_client(old(self)@.accounts, client);
                    assert(false);
                }
                return;
            },
        };
        proof {
            lemma_find_client(old(self)@.accounts, client);
            assert(amount_in_range((#[trigger] old(self)@.transactions[it as int]).amount@));
        }
        let na = self.accounts[ia].available.plus(st_amount);
        let nh = self.accounts[ia].held.minus(st_amount);
        if !(na.in_balance_range() && nh.in_balance_range()) {
            return;
        }
        let ghost accs = self@.accounts;
        let ghost a0 = self@.accounts[ia as int];
        let ghost st0 = self@.transactions[it as int];
        self.transactions[it] = StoredTransaction {
            tx_id,
            client: st_client,
            amount: st_amount,
            under_dispute: false,
        };
        let _ok = self.accounts[ia].release(st_amount);
        proof {
            assert(self@.accounts[ia as int] == after_release(a0, st_amount));
            assert(self@.accounts =~= accs.update(ia as int, after_release(a0, st_amount)));
            assert(self@.transactions =~= old(self)@.transactions.update(
                it as int,
                (StoredTransaction { under_dispute: false, ..st0 }),
            ));
            assert(self@ =~= step_resolve(old(self)@, tx_id, client));
            Self::lemma_wf_after_lifecycle(
                self@,
                old(self)@,
                ia as int,
                after_release(a0, st_amount),
                it as int,
                (StoredTransaction { under_dispute: false, ..st0 }),
            );
        }
    }

    /// Processes a chargeback transaction: removes the held funds of a
    /// disputed deposit and locks the account.
    fn process_chargeback(&mut self, tx_id: u32, client: u16)
        requires
            old(self).wf(),
        ensures
            final (self).wf(),
            final (self)@ == step_chargeback(old(self)@, tx_id, client),
    {
        let acct_idx = self.find_account_index(client);
        if let Some(ia0) = acct_idx {
            proof {
                lemma_find_client(old(self)@.accounts, client);
            }
            if self.accounts[ia0].is_locked() {
                return;
            }
        }
        let it = match self.find_tx_index(tx_id) {
            Some(it) => it,
            None => {
                return;
            },
        };
        proof {
            lemma_find_tx(old(self)@.transactions, tx_id);
        }
        let st_client = self.transactions[it].client;
        let st_amount = self.transactions[it].amount;
        if st_client != client {
            return;
        }
        if !self.transactions[it].under_dispute {
            return;
        }
        let ia = match acct_idx {
            Some(ia) => ia,
            None => {
                proof {
                    assert(has_client(
                        old(self)@.accounts,
                        (#[trigger] old(self)@.transactions[it as int]).client,
                    ));
                    lemma_find_client(old(self)@.accounts, client);
                    assert(false);
                }
                return;
            },
        };
        proof {
            lemma_find_client(old(self)@.accounts, client);
            assert(amount_in_range((#[trigger] old(self)@.transactions[it as int]).amount@));
        }
        let nh = self.accounts[ia].held.minus(st_amount);
        let nt = self.accounts[ia].total.minus(st_amount);
        if !(nh.in_balance_range() && nt.in_balance_range()) {
            return;
        }
        let ghost accs = self@.accounts;
        let ghost a0 = self@.accounts[ia as int];
        let ghost st0 = self@.transactions[it as int];
        self.transactions[it] = StoredTransaction {
            tx_id,
            client: st_client,
            amount: st_amount,
            under_dispute: false,
        };
        let _ok = self.accounts[ia].chargeback(st_amount);
        proof {
            assert(self@.accounts[ia as int] == after_chargeback(a0, st_amount));
            assert(self@.accounts =~= accs.update(ia as int, after_chargeback(a0, st_amount)));
            assert(self@.transactions =~= old(self)@.transactions.update(
                it as int,
                (StoredTransaction { under_dispute: false, ..st0 }),
            ));
            assert(self@ =~= step_chargeback(old(self)@, tx_id, client));
            Self::lemma_wf_after_lifecycle(
                self@,
                old(self)@,
                ia as int,
                after_chargeback(a0, st_amount),
                it as int,
                (StoredTransaction { under_dispute: false, ..st0 }),
            );
        }
    }

    /// Processes one parsed transaction, dispatching on its kind.
    pub fn process(&mut self, t: ParsedTransaction)
        requires
            old(self).wf(),
            tx_amount_in_range(t),
        ensures
            final (self).wf(),
            final (self)@ == spec_step(old(self)@, t),
    {
        match t.kind {
            TxKind::Deposit(amount) => self.process_deposit(t.tx_id, t.client, amount),
            TxKind::Withdrawal(amount) => self.process_withdrawal(t.tx_id, t.client, amount),
            TxKind::Dispute => self.process_dispute(t.tx_id, t.client),
            TxKind::Resolve => self.process_resolve(t.tx_id, t.client),
            TxKind::Chargeback => self.process_chargeback(t.tx_id, t.client),
        }
    }

    /// Processes one raw record: parses it and applies it, or drops it.
    ///
    /// Returns whether the record was well-formed; a malformed record
    /// leaves the engine unchanged, and ingestion goes on.
    pub fn process_record(&mut self, rec: &TransactionRecord) -> (accepted: bool)
        requires
            old(self).wf(),
        ensures
            final (self).wf(),
            final (self)@ == spec_ingest(
                old(self)@,
                rec.tx_type@,
                rec.client,
                rec.tx,
                amount_view(&rec.amount),
            ),
            accepted == (spec_parse_record(rec.tx_type@, rec.client, rec.tx, amount_view(&rec.amount))
                is Some),
    {
        match rec.parse() {
            Some(t) => {
                proof {
                    match amount_view(&rec.amount) {
                        Some(av) => lemma_parse_units_in_range(av),
                        None => {},
                    }
                }
                self.process(t);
                true
            },
            None => false,
        }
    }

    /// Renders the final account states: a header row, then one row per
    /// account, sorted ascending by client identifier, monetary fields with
    /// exactly four fractional digits and `locked` as `true` or `false`.
    #[verifier::rlimit(50)]
    pub fn render_snapshot(&self) -> (r: String)
        requires
            self.wf(),
        ensures
            r@ == spec_snapshot(self@.accounts),
    {
        let ghost accs = self@.accounts;
        let mut out = String::new();
        out.append("client,available,held,total,locked\n");
        proof {
            reveal_strlit("client,available,held,total,locked\n");
            assert(out@ =~= header_text());
            assert(accs.take(0) =~= Seq::<ClientAccount>::empty());
            assert(out@ =~= spec_snapshot(accs.take(0)));
        }
        let n = self.accounts.len();
        let mut i: usize = 0;
        while i < n
            invariant
                0 <= i <= n,
                self.wf(),
                accs == self@.accounts,
                n == accs.len(),
                out@ == spec_snapshot(accs.take(i as int)),
            decreases n - i,
        {
            proof {
                assert(self@.accounts[i as int].wf());
            }
            let client_id = self.accounts[i].client;
            push_dec_digits(client_id as i128, &mut out);
            push_char(&mut out, ',');
            let av = self.accounts[i].available.to_text();
            out.append(av.as_str());
            push_char(&mut out, ',');
            let hd = self.accounts[i].held.to_text();
            out.append(hd.as_str());
            push_char(&mut out, ',');
            let tt = self.accounts[i].total.to_text();
            out.append(tt.as_str());
            push_char(&mut out, ',');
            if self.accounts[i].locked {
                out.append("true");
                proof {
                    reveal_strlit("true");
                    assert("true"@ =~= bool_text(true));
                }
            } else {
                out.append("false");
                proof {
                    reveal_strlit("false");
                    assert("false"@ =~= bool_text(false));
                }
            }
            push_char(&mut out, '\n');
            proof {
                let a = accs[i as int];
                assert(accs.take(i as int + 1).drop_last() =~= accs.take(i as int));
                assert(accs.take(i as int + 1).last() == a);
                assert(out@ =~= spec_snapshot(accs.take(i as int + 1)));
            }
            i += 1;
        }
        proof {
            assert(accs.take(n as int) =~= accs);
        }
        out
    }

    /// Returns a reference to the client's account, if one exists.
    pub fn get_account(&self, client_id: u16) -> (r: Option<&ClientAccount>)
        ensures
            match r {
                Some(a) => find_client(self@.accounts, client_id) >= 0 && *a == self@.accounts[
                    find_client(self@.accounts, client_id)
                ],
                None => find_client(self@.accounts, client_id) == -1,
            },
    {
        match self.find_account_index(client_id) {
            Some(i) => {
                proof {
                    lemma_find_client(self@.accounts, client_id);
                }
                Some(&self.accounts[i])
            },
            None => None,
        }
    }
}

impl Default for PaymentsEngine {
    /// An empty engine.
    fn default() -> (r: Self)
        ensures
            r.wf(),
            r@.accounts == Seq::<ClientAccount>::empty(),
            r@.transactions == Seq::<StoredTransaction>::empty(),
    {
        Self::new()
    }
}

// ---------------------------------------------------------------------------
// Laws of the state machine.
// ---------------------------------------------------------------------------
/// After guaranteeing an account, the client has one.
pub proof fn lemma_ensure_has(s: Seq<ClientAccount>, c: u16)
    ensures
        has_client(ensure_account(s, c), c),
        0 <= find_client(ensure_account(s, c), c) < ensure_account(s, c).len(),
        ensure_account(s, c)[find_client(ensure_account(s, c), c)].client == c,
{
    if !has_client(s, c) {
        lemma_insert_pos_bounds(s, c);
        let p = insert_pos(s, c);
        s.insert_ensures(p, new_account(c));
        assert(ensure_account(s, c)[p].client == c);
        assert(has_client(ensure_account(s, c), c));
    }
    lemma_find_client(ensure_account(s, c), c);
}

/// Replacing the account at one index, keeping its client, leaves every
/// other client's account untouched.
pub proof fn lemma_update_preserves_other(
    s: Seq<ClientAccount>,
    i: int,
    a1: ClientAccount,
    c: u16,
)
    requires
        0 <= i < s.len(),
        a1.client == s[i].client,
        s[i].client != c,
    ensures
        has_client(s.update(i, a1), c) == has_client(s, c),
        has_client(s, c) ==> s.update(i, a1)[find_client(s.update(i, a1), c)] == s[find_client(
            s,
            c,
        )],
{
    let s2 = s.update(i, a1);
    assert(forall|k: int| 0 <= k < s.len() ==> (#[trigger] s[k]).client == (#[trigger] s2[k]).client);
    lemma_find_client_same(s, s2, c);
    lemma_find_client(s, c);
    if has_client(s, c) {
        let f = find_client(s, c);
        assert(f != i);
        assert(s2[f] == s[f]);
        assert(has_client(s2, c));
    } else {
        if has_client(s2, c) {
            let w = choose|w: int| 0 <= w < s2.len() && (#[trigger] s2[w]).client == c;
            assert(s[w].client == c);
            assert(false);
        }
    }
}

/// Inserting an account keeps every client that was present.
proof fn lemma_has_client_insert(s: Seq<ClientAccount>, p: int, a: ClientAccount, c: u16)
    requires
        0 <= p <= s.len(),
        has_client(s, c),
    ensures
        has_client(s.insert(p, a), c),
{
    s.insert_ensures(p, a);
    let w = choose|w: int| 0 <= w < s.len() && (#[trigger] s[w]).client == c;
    if w < p {
        assert(s.insert(p, a)[w].client == c);
    } else {
        assert(s.insert(p, a)[w + 1].client == c);
    }
}

/// The insert position has only smaller-or-equal clients before it and a
/// greater one at it.
proof fn lemma_insert_pos_props(s: Seq<ClientAccount>, c: u16)
    ensures
        0 <= insert_pos(s, c) <= s.len(),
        forall|j: int| 0 <= j < insert_pos(s, c) ==> (#[trigger] s[j]).client <= c,
        insert_pos(s, c) < s.len() ==> s[insert_pos(s, c)].client > c,
    decreases s.len(),
{
    if s.len() > 0 && !(s[0].client > c) {
        lemma_insert_pos_props(s.drop_first(), c);
        let q = s.drop_first();
        assert(forall|j: int| 0 <= j < q.len() ==> #[trigger] q[j] == s[j + 1]);
        assert forall|j: int| 0 <= j < insert_pos(s, c) implies (#[trigger] s[j]).client <= c by {
            if j > 0 {
                assert(s[j] == q[j - 1]);
            }
        }
    }
}

/// Guaranteeing an account for a client preserves the engine invariant.
proof fn lemma_ensure_wf(s0: EngineState, c: u16)
    requires
        state_wf(s0),
    ensures
        state_wf(
            EngineState { accounts: ensure_account(s0.accounts, c), transactions: s0.transactions },
        ),
{
    let sm = EngineState {
        accounts: ensure_account(s0.accounts, c),
        transactions: s0.transactions,
    };
    if !has_client(s0.accounts, c) {
        let p = insert_pos(s0.accounts, c);
        lemma_insert_pos_props(s0.accounts, c);
        let s1 = s0.accounts.insert(p, new_account(c));
        s0.accounts.insert_ensures(p, new_account(c));
        assert forall|j: int| 0 <= j < p implies (#[trigger] s0.accounts[j]).client < c by {
            if s0.accounts[j].client == c {
                assert(has_client(s0.accounts, c));
                assert(false);
            }
        }
        assert forall|x: int, y: int| 0 <= x < y < s1.len() implies (#[trigger] s1[x]).client < (
        #[trigger] s1[y]).client by {
            if y < p {
                assert(s1[x] == s0.accounts[x] && s1[y] == s0.accounts[y]);
            } else if x > p {
                assert(s1[x] == s0.accounts[x - 1] && s1[y] == s0.accounts[y - 1]);
            } else if x < p && y == p {
                assert(s1[x] == s0.accounts[x]);
            } else if x < p && y > p {
                assert(s1[x] == s0.accounts[x] && s1[y] == s0.accounts[y - 1]);
            } else if x == p && y > p {
                assert(s1[y] == s0.accounts[y - 1]);
                assert(s0.accounts[y - 1].client > c);
            }
        }
        assert forall|k: int| 0 <= k < s1.len() implies (#[trigger] s1[k]).wf() by {
            if k < p {
                assert(s1[k] == s0.accounts[k]);
            } else if k > p {
                assert(s1[k] == s0.accounts[k - 1]);
            } else {
                assert(s1[k] == new_account(c));
            }
        }
        assert forall|k: int| 0 <= k < sm.transactions.len() implies has_client(
            s1,
            (#[trigger] sm.transactions[k]).client,
        ) by {
            assert(has_client(s0.accounts, (#[trigger] s0.transactions[k]).client));
            lemma_has_client_insert(s0.accounts, p, new_account(c), s0.transactions[k].client);
        }
        assert forall|x: int, y: int|
            0 <= x < y < sm.transactions.len() implies (#[trigger] sm.transactions[x]).tx_id != (
        #[trigger] sm.transactions[y]).tx_id by {
            assert(s0.transactions[x].tx_id != s0.transactions[y].tx_id);
        }
        assert forall|k: int| 0 <= k < sm.transactions.len() implies amount_in_range(
            (#[trigger] sm.transactions[k]).amount@,
        ) by {
            assert(amount_in_range(s0.transactions[k].amount@));
        }
        assert(sm.accounts == s1);
    }
}

/// Law: processing any transaction preserves the engine invariant, so
/// every account satisfies the balance invariant at every point of a run.
pub proof fn lemma_step_preserves_wf(s: EngineState, t: ParsedTransaction)
    requires
        state_wf(s),
        tx_amount_in_range(t),
    ensures
        state_wf(spec_step(s, t)),
{
    match t.kind {
        TxKind::Deposit(amount) => {
            let accs = ensure_account(s.accounts, t.client);
            let sm = EngineState { accounts: accs, transactions: s.transactions };
            lemma_ensure_wf(s, t.client);
            lemma_ensure_has(s.accounts, t.client);
            let i = find_client(accs, t.client);
            let a = accs[i];
            lemma_find_tx(s.transactions, t.tx_id);
            if a.locked || find_tx(s.transactions, t.tx_id) >= 0 || !dep_ok(a, amount) {
                assert(spec_step(s, t) =~= sm);
            } else {
                assert(a.wf());
                PaymentsEngine::lemma_wf_after_deposit(
                    spec_step(s, t),
                    s,
                    accs,
                    a,
                    i,
                    t.tx_id,
                    t.client,
                    amount,
                );
            }
        },
        TxKind::Withdrawal(amount) => {
            let accs = ensure_account(s.accounts, t.client);
            let sm = EngineState { accounts: accs, transactions: s.transactions };
            lemma_ensure_wf(s, t.client);
            lemma_ensure_has(s.accounts, t.client);
            let i = find_client(accs, t.client);
            let a = accs[i];
            lemma_find_tx(s.transactions, t.tx_id);
            if a.locked || find_tx(s.transactions, t.tx_id) >= 0 || !wd_ok(a, amount)
                || a.available@ < amount@ {
                assert(spec_step(s, t) =~= sm);
            } else {
                assert(a.wf());
                let a1 = after_withdraw(a, amount);
                assert(a1.available@ == a.available@ - amount@);
                assert(a1.total@ == a.total@ - amount@);
                assert(a1.wf());
                PaymentsEngine::lemma_wf_after_account_update(spec_step(s, t), sm, i, a1);
            }
        },
        TxKind::Dispute | TxKind::Resolve | TxKind::Chargeback => {
            let ia = find_client(s.accounts, t.client);
            lemma_find_client(s.accounts, t.client);
            let it = find_tx(s.transactions, t.tx_id);
            lemma_find_tx(s.transactions, t.tx_id);
            if !(ia >= 0 && s.accounts[ia].locked) && it >= 0 {
                let st = s.transactions[it];
                if st.client == t.client && ia >= 0 {
                    let a = s.accounts[ia];
                    assert(a.wf());
                    assert(amount_in_range((#[trigger] s.transactions[it]).amount@));
                    let applies = match t.kind {
                        TxKind::Dispute => !st.under_dispute && hold_ok(a, st.amount),
                        TxKind::Resolve => st.under_dispute && rel_ok(a, st.amount),
                        TxKind::Chargeback => st.under_dispute && cb_ok(a, st.amount),
                        _ => false,
                    };
                    if applies {
                        let a1 = match t.kind {
                            TxKind::Dispute => after_hold(a, st.amount),
                            TxKind::Resolve => after_release(a, st.amount),
                            _ => after_chargeback(a, st.amount),
                        };
                        let flag = t.kind is Dispute;
                        let st1 = (StoredTransaction { under_dispute: flag, ..st });
                        assert(a1.wf());
                        assert(spec_step(s, t).accounts == s.accounts.update(ia, a1));
                        assert(spec_step(s, t).transactions == s.transactions.update(it, st1));
                        PaymentsEngine::lemma_wf_after_lifecycle(spec_step(s, t), s, ia, a1, it, st1);
                    } else {
                        assert(spec_step(s, t) =~= s);
                    }
                } else {
                    assert(spec_step(s, t) =~= s);
                }
            } else {
                assert(spec_step(s, t) =~= s);
            }
        },
    }
}

/// Law: in a well-formed state, every account's total is exactly its
/// available funds plus its held funds.
pub proof fn lemma_balance_invariant(s: EngineState, i: int)
    requires
        state_wf(s),
        0 <= i < s.accounts.len(),
    ensures
        s.accounts[i].total@ == s.accounts[i].available@ + s.accounts[i].held@,
{
    assert(s.accounts[i].wf());
}

/// Law: once an account is locked, no transaction changes any of its
/// fields; the lock is permanent.
pub proof fn lemma_locked_account_frozen(s: EngineState, t: ParsedTransaction, c: u16)
    requires
        state_wf(s),
        has_client(s.accounts, c),
        s.accounts[find_client(s.accounts, c)].locked,
    ensures
        has_client(spec_step(s, t).accounts, c),
        spec_step(s, t).accounts[find_client(spec_step(s, t).accounts, c)] == s.accounts[
            find_client(s.accounts, c)
        ],
{
    lemma_find_client(s.accounts, c);
    let f = find_client(s.accounts, c);
    match t.kind {
        TxKind::Deposit(amount) | TxKind::Withdrawal(amount) => {
            let accs = ensure_account(s.accounts, t.client);
            lemma_ensure_account_preserves(s.accounts, t.client, c);
            lemma_ensure_has(s.accounts, t.client);
            let i = find_client(accs, t.client);
            if t.client == c {
                assert(accs == s.accounts);
                assert(accs[i].locked);
            } else {
                assert(has_client(accs, c));
                assert(accs[find_client(accs, c)] == s.accounts[f]);
                assert(accs[i].client == t.client);
                let a = accs[i];
                let upd = if t.kind is Deposit {
                    after_deposit(a, amount)
                } else {
                    after_withdraw(a, amount)
                };
                lemma_update_preserves_other(accs, i, upd, c);
            }
        },
        TxKind::Dispute | TxKind::Resolve | TxKind::Chargeback => {
            let ia = find_client(s.accounts, t.client);
            if t.client == c {
                assert(ia == f);
            } else {
                lemma_find_client(s.accounts, t.client);
                let it = find_tx(s.transactions, t.tx_id);
                lemma_find_tx(s.transactions, t.tx_id);
                if ia >= 0 && it >= 0 {
                    let st = s.transactions[it];
                    let a = s.accounts[ia];
                    assert(a.client == t.client);
                    lemma_update_preserves_other(s.accounts, ia, after_hold(a, st.amount), c);
                    lemma_update_preserves_other(s.accounts, ia, after_release(a, st.amount), c);
                    lemma_update_preserves_other(s.accounts, ia, after_chargeback(a, st.amount), c);
                }
            }
        },
    }
}

/// Law: an account whose available balance is not negative can only be
/// driven negative by a dispute from its own client on a stored deposit
/// whose amount exceeds the balance. This holds as long as no negative
/// amount is in play: a deposit of negative text, which the grammar
/// accepts, can lower the balance directly.
pub proof fn lemma_negative_available_needs_dispute(s: EngineState, t: ParsedTransaction, c: u16)
    requires
        state_wf(s),
        (match t.kind {
            TxKind::Deposit(a) => a@ >= 0,
            TxKind::Withdrawal(a) => a@ >= 0,
            _ => true,
        }),
        forall|k: int| 0 <= k < s.transactions.len() ==> (#[trigger] s.transactions[k]).amount@ >= 0,
        has_client(s.accounts, c),
        s.accounts[find_client(s.accounts, c)].available@ >= 0,
        has_client(spec_step(s, t).accounts, c),
        spec_step(s, t).accounts[find_client(spec_step(s, t).accounts, c)].available@ < 0,
    ensures
        t.kind is Dispute,
        t.client == c,
        find_tx(s.transactions, t.tx_id) >= 0,
        s.transactions[find_tx(s.transactions, t.tx_id)].amount@ > s.accounts[find_client(
            s.accounts,
            c,
        )].available@,
{
    lemma_find_client(s.accounts, c);
    let f = find_client(s.accounts, c);
    let a_c = s.accounts[f];
    match t.kind {
        TxKind::Deposit(amount) | TxKind::Withdrawal(amount) => {
            let accs = ensure_account(s.accounts, t.client);
            lemma_ensure_account_preserves(s.accounts, t.client, c);
            lemma_ensure_has(s.accounts, t.client);
            let i = find_client(accs, t.client);
            if t.client == c {
                assert(accs == s.accounts);
                let upd = if t.kind is Deposit {
                    after_deposit(a_c, amount)
                } else {
                    after_withdraw(a_c, amount)
                };
                assert(forall|k: int|
                    0 <= k < accs.len() ==> (#[trigger] accs[k]).client == (#[trigger] accs.update(
                        i,
                        upd,
                    )[k]).client);
                lemma_find_client_same(accs, accs.update(i, upd), c);
                assert(false);
            } else {
                assert(accs[i].client == t.client);
                let a = accs[i];
                let upd = if t.kind is Deposit {
                    after_deposit(a, amount)
                } else {
                    after_withdraw(a, amount)
                };
                lemma_update_preserves_other(accs, i, upd, c);
                assert(false);
            }
        },
        TxKind::Dispute => {
            let ia = find_client(s.accounts, t.client);
            lemma_find_client(s.accounts, t.client);
            let it = find_tx(s.transactions, t.tx_id);
            lemma_find_tx(s.transactions, t.tx_id);
            if t.client == c {
                assert(ia == f);
                if it >= 0 {
                    let st = s.transactions[it];
                    if !(st.client != c || st.under_dispute || ia < 0) && hold_ok(a_c, st.amount)
                        && !a_c.locked {
                        let upd = after_hold(a_c, st.amount);
                        assert(forall|k: int|
                            0 <= k < s.accounts.len() ==> (#[trigger] s.accounts[k]).client == (
                            #[trigger] s.accounts.update(ia, upd)[k]).client);
                        lemma_find_client_same(s.accounts, s.accounts.update(ia, upd), c);
                        assert(spec_step(s, t).accounts[f] == upd);
                        assert(upd.available@ == a_c.available@ - st.amount@);
                        assert(st.amount@ > a_c.available@);
                    } else {
                        assert(false);
                    }
                } else {
                    assert(false);
                }
            } else {
                if ia >= 0 && it >= 0 {
                    let st = s.transactions[it];
                    let a = s.accounts[ia];
                    lemma_update_preserves_other(s.accounts, ia, after_hold(a, st.amount), c);
                }
                assert(false);
            }
        },
        TxKind::Resolve | TxKind::Chargeback => {
            let ia = find_client(s.accounts, t.client);
            lemma_find_client(s.accounts, t.client);
            let it = find_tx(s.transactions, t.tx_id);
            lemma_find_tx(s.transactions, t.tx_id);
            if ia >= 0 && it >= 0 {
                let st = s.transactions[it];
                let a = s.accounts[ia];
                if t.client == c {
                    assert(ia == f);
                    assert(st.amount@ >= 0);
                    let upd = if t.kind is Resolve {
                        after_release(a, st.amount)
                    } else {
                        after_chargeback(a, st.amount)
                    };
                    assert(forall|k: int|
                        0 <= k < s.accounts.len() ==> (#[trigger] s.accounts[k]).client == (
                        #[trigger] s.accounts.update(ia, upd)[k]).client);
                    lemma_find_client_same(s.accounts, s.accounts.update(ia, upd), c);
                } else {
                    lemma_update_preserves_other(s.accounts, ia, after_release(a, st.amount), c);
                    lemma_update_preserves_other(s.accounts, ia, after_chargeback(a, st.amount), c);
                }
            }
            assert(false);
        },
    }
}

/// Law: a dispute followed by a resolve of the same transaction returns
/// the engine to exactly the state it had before the dispute.
pub proof fn lemma_dispute_resolve_roundtrip(s: EngineState, tx_id: u32, client: u16)
    requires
        state_wf(s),
        find_client(s.accounts, client) >= 0,
        !s.accounts[find_client(s.accounts, client)].locked,
        find_tx(s.transactions, tx_id) >= 0,
        s.transactions[find_tx(s.transactions, tx_id)].client == client,
        !s.transactions[find_tx(s.transactions, tx_id)].under_dispute,
        hold_ok(
            s.accounts[find_client(s.accounts, client)],
            s.transactions[find_tx(s.transactions, tx_id)].amount,
        ),
    ensures
        step_resolve(step_dispute(s, tx_id, client), tx_id, client) == s,
{
    lemma_find_client(s.accounts, client);
    lemma_find_tx(s.transactions, tx_id);
    let ia = find_client(s.accounts, client);
    let it = find_tx(s.transactions, tx_id);
    let a = s.accounts[ia];
    let st = s.transactions[it];
    assert(a.wf());
    let a1 = after_hold(a, st.amount);
    let st1 = (StoredTransaction { under_dispute: true, ..st });
    let s1 = step_dispute(s, tx_id, client);
    assert(s1.accounts == s.accounts.update(ia, a1));
    assert(s1.transactions == s.transactions.update(it, st1));
    assert(forall|k: int|
        0 <= k < s.accounts.len() ==> (#[trigger] s.accounts[k]).client == (
        #[trigger] s1.accounts[k]).client);
    lemma_find_client_same(s.accounts, s1.accounts, client);
    assert(forall|k: int|
        0 <= k < s.transactions.len() ==> (#[trigger] s.transactions[k]).tx_id == (
        #[trigger] s1.transactions[k]).tx_id);
    lemma_find_tx_same(s.transactions, s1.transactions, tx_id);
    assert(s1.accounts[ia] == a1);
    assert(s1.transactions[it] == st1);
    assert(a1.available@ == a.available@ - st.amount@);
    assert(a1.held@ == a.held@ + st.amount@);
    assert(rel_ok(a1, st.amount));
    let a2 = after_release(a1, st.amount);
    assert(a2.available.units == a.available.units);
    assert(a2.held.units == a.held.units);
    assert(a2 == a);
    let st2 = (StoredTransaction { under_dispute: false, ..st1 });
    assert(st2 == st);
    let s2 = step_resolve(s1, tx_id, client);
    assert(s2.accounts == s1.accounts.update(ia, a2));
    assert(s2.accounts =~= s.accounts);
    assert(s2.transactions =~= s.transactions);
    assert(s2 =~= s);
}

/// Law: applying the same deposit twice has the state of applying it
/// once: the duplicate transaction identifier is rejected.
pub proof fn lemma_deposit_idempotent(s: EngineState, tx_id: u32, client: u16, amount: Decimal4)
    requires
        state_wf(s),
    ensures
        step_deposit(step_deposit(s, tx_id, client, amount), tx_id, client, amount) == step_deposit(
            s,
            tx_id,
            client,
            amount,
        ),
{
    let accs = ensure_account(s.accounts, client);
    lemma_ensure_has(s.accounts, client);
    lemma_ensure_account_preserves(s.accounts, client, client);
    let i = find_client(accs, client);
    let a = accs[i];
    let s1 = step_deposit(s, tx_id, client, amount);
    if a.locked || find_tx(s.transactions, tx_id) >= 0 || !dep_ok(a, amount) {
        assert(s1.accounts == accs);
        assert(s1.transactions == s.transactions);
        assert(has_client(accs, client));
        lemma_ensure_account_preserves(accs, client, client);
        assert(ensure_account(s1.accounts, client) == accs);
        assert(step_deposit(s1, tx_id, client, amount) =~= s1);
    } else {
        let a1 = after_deposit(a, amount);
        assert(s1.accounts == accs.update(i, a1));
        assert(s1.transactions == s.transactions.push(
            StoredTransaction { tx_id, client, amount, under_dispute: false },
        ));
        assert(s1.accounts[i].client == client);
        assert(has_client(s1.accounts, client));
        lemma_ensure_account_preserves(s1.accounts, client, client);
        assert(ensure_account(s1.accounts, client) == s1.accounts);
        lemma_find_tx(s1.transactions, tx_id);
        if find_tx(s1.transactions, tx_id) == -1 {
            assert(s1.transactions[s1.transactions.len() - 1].tx_id == tx_id);
            assert(false);
        }
        assert(step_deposit(s1, tx_id, client, amount) =~= s1);
    }
}

/// Law: a second dispute of an already-disputed transaction is ignored:
/// disputing twice has the state of disputing once.
pub proof fn lemma_dispute_idempotent(s: EngineState, tx_id: u32, client: u16)
    requires
        state_wf(s),
    ensures
        step_dispute(step_dispute(s, tx_id, client), tx_id, client) == step_dispute(s, tx_id, client),
{
    let ia = find_client(s.accounts, client);
    lemma_find_client(s.accounts, client);
    let it = find_tx(s.transactions, tx_id);
    lemma_find_tx(s.transactions, tx_id);
    let s1 = step_dispute(s, tx_id, client);
    if !(ia >= 0 && s.accounts[ia].locked) && it >= 0 {
        let st = s.transactions[it];
        let a = if ia >= 0 {
            s.accounts[ia]
        } else {
            s.accounts[0]
        };
        if !(st.client != client || st.under_dispute || ia < 0) && hold_ok(a, st.amount) {
            let a1 = after_hold(a, st.amount);
            let st1 = (StoredTransaction { under_dispute: true, ..st });
            assert(s1.accounts == s.accounts.update(ia, a1));
            assert(s1.transactions == s.transactions.update(it, st1));
            assert(forall|k: int|
                0 <= k < s.accounts.len() ==> (#[trigger] s.accounts[k]).client == (
                #[trigger] s1.accounts[k]).client);
            lemma_find_client_same(s.accounts, s1.accounts, client);
            assert(forall|k: int|
                0 <= k < s.transactions.len() ==> (#[trigger] s.transactions[k]).tx_id == (
                #[trigger] s1.transactions[k]).tx_id);
            lemma_find_tx_same(s.transactions, s1.transactions, tx_id);
            assert(s1.transactions[it].under_dispute);
            assert(step_dispute(s1, tx_id, client) =~= s1);
        } else {
            assert(s1 =~= s);
        }
    } else {
        assert(s1 =~= s);
    }
}

/// Law: a resolve of a transaction not under dispute is ignored, so
/// resolving twice has the state of resolving once.
pub proof fn lemma_resolve_idempotent(s: EngineState, tx_id: u32, client: u16)
    requires
        state_wf(s),
    ensures
        step_resolve(step_resolve(s, tx_id, client), tx_id, client) == step_resolve(s, tx_id, client),
{
    let ia = find_client(s.accounts, client);
    lemma_find_client(s.accounts, client);
    let it = find_tx(s.transactions, tx_id);
    lemma_find_tx(s.transactions, tx_id);
    let s1 = step_resolve(s, tx_id, client);
    if !(ia >= 0 && s.accounts[ia].locked) && it >= 0 {
        let st = s.transactions[it];
        let a = if ia >= 0 {
            s.accounts[ia]
        } else {
            s.accounts[0]
        };
        if !(st.client != client || !st.under_dispute || ia < 0) && rel_ok(a, st.amount) {
            let a1 = after_release(a, st.amount);
            let st1 = (StoredTransaction { under_dispute: false, ..st });
            assert(s1.accounts == s.accounts.update(ia, a1));
            assert(s1.transactions == s.transactions.update(it, st1));
            assert(forall|k: int|
                0 <= k < s.accounts.len() ==> (#[trigger] s.accounts[k]).client == (
                #[trigger] s1.accounts[k]).client);
            lemma_find_client_same(s.accounts, s1.accounts, client);
            assert(forall|k: int|
                0 <= k < s.transactions.len() ==> (#[trigger] s.transactions[k]).tx_id == (
                #[trigger] s1.transactions[k]).tx_id);
            lemma_find_tx_same(s.transactions, s1.transactions, tx_id);
            assert(!s1.transactions[it].under_dispute);
            assert(step_resolve(s1, tx_id, client) =~= s1);
        } else {
            assert(s1 =~= s);
        }
    } else {
        assert(s1 =~= s);
    }
}

/// Law: a chargeback of a transaction not under dispute is ignored, and a
/// chargeback locks the account, so charging back twice has the state of
/// charging back once.
pub proof fn lemma_chargeback_idempotent(s: EngineState, tx_id: u32, client: u16)
    requires
        state_wf(s),
    ensures
        step_chargeback(step_chargeback(s, tx_id, client), tx_id, client) == step_chargeback(
            s,
            tx_id,
            client,
        ),
{
    let ia = find_client(s.accounts, client);
    lemma_find_client(s.accounts, client);
    let it = find_tx(s.transactions, tx_id);
    lemma_find_tx(s.transactions, tx_id);
    let s1 = step_chargeback(s, tx_id, client);
    if !(ia >= 0 && s.accounts[ia].locked) && it >= 0 {
        let st = s.transactions[it];
        let a = if ia >= 0 {
            s.accounts[ia]
        } else {
            s.accounts[0]
        };
        if !(st.client != client || !st.under_dispute || ia < 0) && cb_ok(a, st.amount) {
            let a1 = after_chargeback(a, st.amount);
            let st1 = (StoredTransaction { under_dispute: false, ..st });
            assert(s1.accounts == s.accounts.update(ia, a1));
            assert(s1.transactions == s.transactions.update(it, st1));
            assert(forall|k: int|
                0 <= k < s.accounts.len() ==> (#[trigger] s.accounts[k]).client == (
                #[trigger] s1.accounts[k]).client);
            lemma_find_client_same(s.accounts, s1.accounts, client);
            assert(s1.accounts[ia].locked);
            assert(step_chargeback(s1, tx_id, client) =~= s1);
        } else {
            assert(s1 =~= s);
        }
    } else {
        assert(s1 =~= s);
    }
}

} // verus!
