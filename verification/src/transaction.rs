//! Transaction models: the raw record, its parsed form, and the stored
//! deposit entry the dispute lifecycle refers back to.

use crate::decimal::{parse_units, trim_bounds, trimmed, Decimal4};
use vstd::prelude::*;
use vstd::string::StrSliceExecFns;

verus! {

/// A raw transaction record, as handed in by the record source.
///
/// The kind token and the amount are plain text; `parse` validates and types
/// them. The amount is only present for deposits and withdrawals.
#[derive(Debug, Clone)]
pub struct TransactionRecord {
    /// Transaction kind token: deposit, withdrawal, dispute, resolve or
    /// chargeback, case-insensitive and surrounded by optional whitespace.
    pub tx_type: String,
    /// Client identifier.
    pub client: u16,
    /// Globally unique transaction identifier.
    pub tx: u32,
    /// Amount text, present for deposit and withdrawal.
    pub amount: Option<String>,
}

/// Transaction kind with the associated amount where one applies.
#[derive(Debug, Clone, Copy)]
pub enum TxKind {
    /// Credit funds to a client account.
    Deposit(Decimal4),
    /// Debit funds from a client account, if enough is available.
    Withdrawal(Decimal4),
    /// Claim that the referenced deposit was erroneous; holds its funds.
    Dispute,
    /// Resolution in the client's favor; releases the held funds.
    Resolve,
    /// Resolution against the client; removes the held funds and locks the
    /// account.
    Chargeback,
}

/// A parsed and validated transaction ready for processing.
#[derive(Debug, Clone, Copy)]
pub struct ParsedTransaction {
    /// Globally unique transaction identifier.
    pub tx_id: u32,
    /// Client identifier.
    pub client: u16,
    /// Transaction kind with associated data.
    pub kind: TxKind,
}

/// A stored deposit, kept for dispute, resolve and chargeback reference.
#[derive(Debug, Clone)]
pub struct StoredTransaction {
    /// Transaction identifier.
    pub tx_id: u32,
    /// Client who owns this transaction.
    pub client: u16,
    /// Original deposit amount.
    pub amount: Decimal4,
    /// Whether this transaction is currently under dispute.
    pub under_dispute: bool,
}

impl StoredTransaction {
    /// Creates a stored transaction from a successful deposit; it starts
    /// out not under dispute.
    pub fn from_deposit(tx_id: u32, client: u16, amount: Decimal4) -> (r: StoredTransaction)
        ensures
            r.tx_id == tx_id,
            r.client == client,
            r.amount == amount,
            !r.under_dispute,
    {
        StoredTransaction { tx_id, client, amount, under_dispute: false }
    }
}

// ---------------------------------------------------------------------------
// Kind-token recognition: ASCII case-insensitive comparison of the trimmed
// token against the five transaction kinds.
// ---------------------------------------------------------------------------
/// Case-insensitive match of a token against a lowercase word: each character
/// is the word's character or its ASCII uppercase form, 32 codepoints below.
pub open spec fn matches_ci(t: Seq<char>, w: Seq<char>) -> bool {
    t.len() == w.len() && forall|i: int|
        0 <= i < t.len() ==> (t[i] == w[i] || #[trigger] (t[i] as int) + 32 == w[i] as int)
}

pub open spec fn deposit_token() -> Seq<char> {
    seq!['d', 'e', 'p', 'o', 's', 'i', 't']
}

pub open spec fn withdrawal_token() -> Seq<char> {
    seq!['w', 'i', 't', 'h', 'd', 'r', 'a', 'w', 'a', 'l']
}

pub open spec fn dispute_token() -> Seq<char> {
    seq!['d', 'i', 's', 'p', 'u', 't', 'e']
}

pub open spec fn resolve_token() -> Seq<char> {
    seq!['r', 'e', 's', 'o', 'l', 'v', 'e']
}

pub open spec fn chargeback_token() -> Seq<char> {
    seq!['c', 'h', 'a', 'r', 'g', 'e', 'b', 'a', 'c', 'k']
}

/// What the amount text denotes, if it is present and a decimal in range.
pub open spec fn spec_parse_amount(amount: Option<Seq<char>>) -> Option<Decimal4> {
    match amount {
        Some(s) => match parse_units(s) {
            Some(u) => Some(Decimal4 { units: u as i128 }),
            None => None,
        },
        None => None,
    }
}

/// What parsing a raw record yields: a typed transaction, or nothing when
/// the kind token is unknown or a required amount is missing or malformed.
pub open spec fn spec_parse_record(
    ty: Seq<char>,
    client: u16,
    tx: u32,
    amount: Option<Seq<char>>,
) -> Option<ParsedTransaction> {
    let t = trimmed(ty);
    if matches_ci(t, deposit_token()) {
        match spec_parse_amount(amount) {
            Some(a) => Some(ParsedTransaction { tx_id: tx, client, kind: TxKind::Deposit(a) }),
            None => None,
        }
    } else if matches_ci(t, withdrawal_token()) {
        match spec_parse_amount(amount) {
            Some(a) => Some(ParsedTransaction { tx_id: tx, client, kind: TxKind::Withdrawal(a) }),
            None => None,
        }
    } else if matches_ci(t, dispute_token()) {
        Some(ParsedTransaction { tx_id: tx, client, kind: TxKind::Dispute })
    } else if matches_ci(t, resolve_token()) {
        Some(ParsedTransaction { tx_id: tx, client, kind: TxKind::Resolve })
    } else if matches_ci(t, chargeback_token()) {
        Some(ParsedTransaction { tx_id: tx, client, kind: TxKind::Chargeback })
    } else {
        None
    }
}

/// The view of an optional amount string.
pub open spec fn amount_view(amount: &Option<String>) -> Option<Seq<char>> {
    match amount {
        Some(s) => Some(s@),
        None => None,
    }
}

/// Compares the token between `lo` and `hi` in `s` case-insensitively
/// against the lowercase word `w`.
fn matches_token_ci(s: &str, lo: usize, hi: usize, w: &str) -> (r: bool)
    requires
        lo <= hi <= s@.len(),
    ensures
        r == matches_ci(s@.subrange(lo as int, hi as int), w@),
{
    let ghost t = s@.subrange(lo as int, hi as int);
    let wn = w.unicode_len();
    if hi - lo != wn {
        return false;
    }
    let mut i: usize = 0;
    while i < wn
        invariant
            0 <= i <= wn,
            wn == w@.len(),
            hi - lo == wn,
            lo <= hi <= s@.len(),
            t == s@.subrange(lo as int, hi as int),
            forall|j: int|
                0 <= j < i ==> (t[j] == w@[j] || #[trigger] (t[j] as int) + 32 == w@[j] as int),
        decreases wn - i,
    {
        let c = s.get_char(lo + i);
        let l = w.get_char(i);
        proof {
            assert(t[i as int] == s@[lo + i]);
        }
        let cu = c as u32;
        let lu = l as u32;
        if !(cu == lu || cu + 32 == lu) {
            proof {
                assert(!(t[i as int] == w@[i as int] || (t[i as int] as int) + 32 == w@[i as int]
                    as int));
            }
            return false;
        }
        i += 1;
    }
    true
}

impl TransactionRecord {
    /// Parses the raw record into a typed transaction.
    ///
    /// Returns `None` exactly when the record is invalid: an unknown kind
    /// token, or a missing or malformed amount for deposit or withdrawal.
    pub fn parse(&self) -> (r: Option<ParsedTransaction>)
        ensures
            r == spec_parse_record(self.tx_type@, self.client, self.tx, amount_view(&self.amount)),
    {
        let ty: &str = self.tx_type.as_str();
        let (lo, hi) = trim_bounds(ty);
        proof {
            reveal_strlit("deposit");
            reveal_strlit("withdrawal");
            reveal_strlit("dispute");
            reveal_strlit("resolve");
            reveal_strlit("chargeback");
            assert("deposit"@ =~= deposit_token());
            assert("withdrawal"@ =~= withdrawal_token());
            assert("dispute"@ =~= dispute_token());
            assert("resolve"@ =~= resolve_token());
            assert("chargeback"@ =~= chargeback_token());
        }
        if matches_token_ci(ty, lo, hi, "deposit") {
            match self.parse_amount() {
                Some(a) => Some(
                    ParsedTransaction {
                        tx_id: self.tx,
                        client: self.client,
                        kind: TxKind::Deposit(a),
                    },
                ),
                None => None,
            }
        } else if matches_token_ci(ty, lo, hi, "withdrawal") {
            match self.parse_amount() {
                Some(a) => Some(
                    ParsedTransaction {
                        tx_id: self.tx,
                        client: self.client,
                        kind: TxKind::Withdrawal(a),
                    },
                ),
                None => None,
            }
        } else if matches_token_ci(ty, lo, hi, "dispute") {
            Some(ParsedTransaction { tx_id: self.tx, client: self.client, kind: TxKind::Dispute })
        } else if matches_token_ci(ty, lo, hi, "resolve") {
            Some(ParsedTransaction { tx_id: self.tx, client: self.client, kind: TxKind::Resolve })
        } else if matches_token_ci(ty, lo, hi, "chargeback") {
            Some(
                ParsedTransaction { tx_id: self.tx, client: self.client, kind: TxKind::Chargeback },
            )
        } else {
            None
        }
    }

    /// Parses the amount field into a `Decimal4`.
    fn parse_amount(&self) -> (r: Option<Decimal4>)
        ensures
            r == spec_parse_amount(amount_view(&self.amount)),
    {
        match &self.amount {
            Some(s) => match Decimal4::parse_str(s.as_str()) {
                Ok(d) => Some(d),
                Err(_) => None,
            },
            None => None,
        }
    }
}

} // verus!
