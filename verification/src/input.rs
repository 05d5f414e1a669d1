//! Transaction records as they arrive from the input stream: a kind, a
//! client id, a transaction id, and an optional amount, together with the
//! validity rule that gates every record before it may touch a ledger.

use crate::simple_fp::FixedPoint;
use vstd::prelude::*;
use vstd::string::StrSliceExecFns;

verus! {

/// The code point of a character with an upper-case ASCII letter folded to
/// its lower-case form; anything else is itself.
pub open spec fn fold_lower(c: char) -> int {
    let u = (c as u32) as int;
    if 65 <= u <= 90 {
        u + 32
    } else {
        u
    }
}

/// Two texts are equal up to ASCII case.
pub open spec fn matches_ci(s: Seq<char>, t: Seq<char>) -> bool {
    s.len() == t.len() && forall|i: int| 0 <= i < s.len() ==> fold_lower(s[i]) == fold_lower(#[trigger] t[i])
}

/// Compares two texts for equality up to ASCII case.
fn eq_ignore_ascii_case(s: &str, t: &str) -> (r: bool)
    ensures
        r == matches_ci(s@, t@),
{
    let n = s.unicode_len();
    if n != t.unicode_len() {
        return false;
    }
    let mut i: usize = 0;
    while i < n
        invariant
            n == s@.len(),
            n == t@.len(),
            0 <= i <= n,
            forall|j: int| 0 <= j < i ==> fold_lower(s@[j]) == fold_lower(#[trigger] t@[j]),
        decreases n - i,
    {
        let a = s.get_char(i) as u32;
        let b = t.get_char(i) as u32;
        let a = if a >= 65 && a <= 90 {
            a + 32
        } else {
            a
        };
        let b = if b >= 65 && b <= 90 {
            b + 32
        } else {
            b
        };
        if a != b {
            return false;
        }
        i += 1;
    }
    true
}

/// The five kinds of record the stream may carry.
#[derive(Debug, Clone, Copy, PartialEq, Eq, Structural)]
pub enum TransactionType {
    Deposit,
    Withdrawal,
    Dispute,
    Resolve,
    Chargeback,
}

/// The canonical lower-case name of a record kind, as the input stream
/// spells it.
pub open spec fn kind_name(k: TransactionType) -> Seq<char> {
    match k {
        TransactionType::Deposit => seq!['d', 'e', 'p', 'o', 's', 'i', 't'],
        TransactionType::Withdrawal => seq!['w', 'i', 't', 'h', 'd', 'r', 'a', 'w', 'a', 'l'],
        TransactionType::Dispute => seq!['d', 'i', 's', 'p', 'u', 't', 'e'],
        TransactionType::Resolve => seq!['r', 'e', 's', 'o', 'l', 'v', 'e'],
        TransactionType::Chargeback => seq!['c', 'h', 'a', 'r', 'g', 'e', 'b', 'a', 'c', 'k'],
    }
}

impl TransactionType {
    /// The canonical name of this kind.
    pub fn name(self) -> (r: &'static str)
        ensures
            r@ == kind_name(self),
    {
        match self {
            TransactionType::Deposit => {
                proof {
                    reveal_strlit("deposit");
                    assert("deposit"@ =~= kind_name(TransactionType::Deposit));
                }
                "deposit"
            },
            TransactionType::Withdrawal => {
                proof {
                    reveal_strlit("withdrawal");
                    assert("withdrawal"@ =~= kind_name(TransactionType::Withdrawal));
                }
                "withdrawal"
            },
            TransactionType::Dispute => {
                proof {
                    reveal_strlit("dispute");
                    assert("dispute"@ =~= kind_name(TransactionType::Dispute));
                }
                "dispute"
            },
            TransactionType::Resolve => {
                proof {
                    reveal_strlit("resolve");
                    assert("resolve"@ =~= kind_name(TransactionType::Resolve));
                }
                "resolve"
            },
            TransactionType::Chargeback => {
                proof {
                    reveal_strlit("chargeback");
                    assert("chargeback"@ =~= kind_name(TransactionType::Chargeback));
                }
                "chargeback"
            },
        }
    }

    /// Reads a kind from its name, ignoring ASCII case; any other text
    /// names no kind.
    pub fn parse(s: &str) -> (r: Option<TransactionType>)
        ensures
            match r {
                Some(k) => matches_ci(s@, kind_name(k)),
                None => {
                    &&& !matches_ci(s@, kind_name(TransactionType::Deposit))
                    &&& !matches_ci(s@, kind_name(TransactionType::Withdrawal))
                    &&& !matches_ci(s@, kind_name(TransactionType::Dispute))
                    &&& !matches_ci(s@, kind_name(TransactionType::Resolve))
                    &&& !matches_ci(s@, kind_name(TransactionType::Chargeback))
                },
            },
    {
        proof {
            reveal_strlit("deposit");
            reveal_strlit("withdrawal");
            reveal_strlit("dispute");
            reveal_strlit("resolve");
            reveal_strlit("chargeback");
            assert("deposit"@ =~= kind_name(TransactionType::Deposit));
            assert("withdrawal"@ =~= kind_name(TransactionType::Withdrawal));
            assert("dispute"@ =~= kind_name(TransactionType::Dispute));
            assert("resolve"@ =~= kind_name(TransactionType::Resolve));
            assert("chargeback"@ =~= kind_name(TransactionType::Chargeback));
        }
        if eq_ignore_ascii_case(s, "deposit") {
            Some(TransactionType::Deposit)
        } else if eq_ignore_ascii_case(s, "withdrawal") {
            Some(TransactionType::Withdrawal)
        } else if eq_ignore_ascii_case(s, "dispute") {
            Some(TransactionType::Dispute)
        } else if eq_ignore_ascii_case(s, "resolve") {
            Some(TransactionType::Resolve)
        } else if eq_ignore_ascii_case(s, "chargeback") {
            Some(TransactionType::Chargeback)
        } else {
            None
        }
    }
}

/// One record from the input stream. A record may be well formed or not;
/// `valid` decides, and only valid records ever reach a ledger.
#[derive(Debug, Clone, Copy, PartialEq, Eq)]
pub struct Input {
    pub tx_type: TransactionType,
    pub client: u16,
    pub tx: u32,
    pub amount: Option<FixedPoint>,
}

/// The amount a record carries, as a mathematical value; zero when absent.
pub open spec fn amount_of(i: Input) -> int {
    match i.amount {
        Some(a) => a@,
        None => 0,
    }
}

impl Input {
    /// The validity rule: deposits and withdrawals carry a strictly
    /// positive amount; dispute actions carry none.
    pub open spec fn spec_valid(self) -> bool {
        match self.tx_type {
            TransactionType::Deposit | TransactionType::Withdrawal => {
                &&& self.amount is Some
                &&& amount_of(self) > 0
            },
            TransactionType::Dispute | TransactionType::Resolve | TransactionType::Chargeback => {
                self.amount is None
            },
        }
    }

    /// Decides the validity rule.
    pub fn valid(&self) -> (r: bool)
        ensures
            r == self.spec_valid(),
    {
        match self.tx_type {
            TransactionType::Deposit | TransactionType::Withdrawal => {
                match self.amount {
                    Some(amount) => amount.gt(FixedPoint::zero()),
                    None => false,
                }
            },
            TransactionType::Dispute | TransactionType::Resolve | TransactionType::Chargeback => {
                match self.amount {
                    Some(_) => false,
                    None => true,
                }
            },
        }
    }

    /// The record's client id.
    pub fn client(&self) -> (r: u16)
        ensures
            r == self.client,
    {
        self.client
    }

    /// The record's kind.
    pub fn tx_type(&self) -> (r: TransactionType)
        ensures
            r == self.tx_type,
    {
        self.tx_type
    }

    /// The record's amount, when it carries one.
    pub fn amount_as_fp(&self) -> (r: Option<FixedPoint>)
        ensures
            r == self.amount,
    {
        self.amount
    }

    /// The record's transaction id.
    pub fn tx(&self) -> (r: u32)
        ensures
            r == self.tx,
    {
        self.tx
    }

    /// Builds a record from its parts.
    pub fn new(tx_type: TransactionType, client: u16, tx: u32, amount: Option<FixedPoint>) -> (r:
        Input)
        ensures
            r == (Input { tx_type, client, tx, amount }),
    {
        Input { tx_type, client, tx, amount }
    }
}

} // verus!
