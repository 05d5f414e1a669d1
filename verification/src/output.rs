//! The final report: one line per client, every monetary field to exactly
//! four decimal places, the lock flag as a boolean literal.

use crate::accounts::Account;
use crate::accounts::AccountView;
use crate::simple_fp::digits_of;
use crate::simple_fp::push_digits;
use crate::simple_fp::render_decimal;
use crate::simple_fp::FixedPoint;
use std::collections::BTreeMap;
use vstd::prelude::*;
use vstd::std_specs::iter::IteratorSpec;
use vstd::string::StringExecFns;

verus! {

broadcast use vstd::std_specs::btree::group_btree_axioms, vstd::laws_cmp::group_laws_cmp;

/// One report line for one client.
pub struct Output {
    /// The client the line is about.
    pub client: u16,
    /// The amount available for use; equals total minus held.
    pub available: FixedPoint,
    /// The amount frozen during disputes; equals total minus available.
    pub held: FixedPoint,
    /// The total amount of funds.
    pub total: FixedPoint,
    /// Whether the account is locked after a chargeback.
    pub locked: bool,
}

/// The field separator of the report.
pub open spec fn comma_sep() -> Seq<char> {
    seq![',', ' ']
}

/// The boolean literals of the report.
pub open spec fn bool_text(b: bool) -> Seq<char> {
    if b {
        seq!['t', 'r', 'u', 'e']
    } else {
        seq!['f', 'a', 'l', 's', 'e']
    }
}

/// The exact text of one report line: the client id, the three balances
/// rendered to four decimal places, and the lock flag.
pub open spec fn csv_line_of(o: Output) -> Seq<char> {
    digits_of(o.client as nat) + comma_sep() + render_decimal(o.available@) + comma_sep()
        + render_decimal(o.held@) + comma_sep() + render_decimal(o.total@) + comma_sep()
        + bool_text(o.locked)
}

impl Output {
    /// Renders this line of the report.
    pub fn csv_line(&self) -> (r: String)
        requires
            0 <= self.available@,
            0 <= self.held@,
            0 <= self.total@,
        ensures
            r@ == csv_line_of(*self),
    {
        let mut out = String::new();
        push_digits(&mut out, self.client as u128);
        proof {
            reveal_strlit(", ");
            assert(", "@ =~= comma_sep());
        }
        out.append(", ");
        let a = self.available.to_decimal();
        out.append(a.as_str());
        out.append(", ");
        let h = self.held.to_decimal();
        out.append(h.as_str());
        out.append(", ");
        let t = self.total.to_decimal();
        out.append(t.as_str());
        out.append(", ");
        if self.locked {
            proof {
                reveal_strlit("true");
                assert("true"@ =~= bool_text(true));
            }
            out.append("true");
        } else {
            proof {
                reveal_strlit("false");
                assert("false"@ =~= bool_text(false));
            }
            out.append("false");
        }
        proof {
            assert(out@ =~= csv_line_of(*self));
        }
        out
    }
}

/// The exact text of the report line for a client id and its account
/// state.
pub open spec fn report_line_of(client: u16, a: AccountView) -> Seq<char> {
    digits_of(client as nat) + comma_sep() + render_decimal(a.available) + comma_sep()
        + render_decimal(a.held) + comma_sep() + render_decimal(a.total()) + comma_sep()
        + bool_text(a.locked)
}

/// Renders the whole report body: one line per client, in the mapping's
/// own ascending client id order.
pub fn report_lines(accounts: &BTreeMap<u16, Account>) -> (r: Vec<String>)
    requires
        forall|c: u16| #[trigger] accounts@.dom().contains(c) ==> accounts@[c].wf(),
    ensures
        ({
            let kvs = vstd::std_specs::btree::spec_btree_map_iter(accounts).remaining();
            &&& r@.len() == accounts@.dom().len()
            &&& forall|i: int|
                0 <= i < r@.len() ==> r@[i]@ == report_line_of(*kvs[i].0, (*kvs[i].1)@)
        }),
{
    let mut r: Vec<String> = Vec::new();
    for kv in it: accounts.iter()
        invariant
            forall|c: u16| #[trigger] accounts@.dom().contains(c) ==> accounts@[c].wf(),
            it.seq() == vstd::std_specs::btree::spec_btree_map_iter(accounts).remaining(),
            r@.len() == it.index(),
            forall|i: int|
                0 <= i < r@.len() ==> r@[i]@ == report_line_of(
                    *it.seq()[i].0,
                    (*it.seq()[i].1)@,
                ),
    {
        let (client, account) = kv;
        proof {
            assert(accounts@.contains_key(*client));
        }
        let out = Output {
            client: *client,
            available: account.available(),
            held: account.held(),
            total: account.total(),
            locked: account.locked(),
        };
        let line = out.csv_line();
        r.push(line);
    }
    r
}

} // verus!
