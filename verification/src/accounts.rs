//! The account ledger: per-client balances, the transaction state machine
//! with its three-step dispute lifecycle, and the storage that routes each
//! record to the ledger its client id owns.
//!
//! The whole state machine is written down once, as the specification
//! functions `spec_apply`, `spec_dispute`, `spec_resolve` and
//! `spec_chargeback`; the executable methods are proved to implement them
//! exactly, and the well-formedness predicate `AccountView::wf` — balance
//! conservation included — is proved preserved by every step.

use crate::input::amount_of;
use crate::input::Input;
use crate::input::TransactionType;
use crate::simple_fp::FixedPoint;
use std::collections::BTreeMap;
use vstd::prelude::*;

verus! {

broadcast use vstd::std_specs::btree::group_btree_axioms, vstd::laws_cmp::group_laws_cmp;

/// Why one record was rejected. Every failure is local to one record and
/// leaves the ledger unchanged.
#[derive(Debug, Clone, Copy, PartialEq, Eq, Structural)]
pub enum TransactionError {
    /// There were not enough available funds on the account to handle the
    /// requested transaction.
    NotEnoughAvailableFunds,
    /// The transaction id could not be found.
    MissingTxId,
    /// The account has been locked, and thus no transaction is valid.
    AccountLocked,
    /// The record itself was not valid.
    InvalidTx,
    /// The referenced transaction is of a kind that cannot be disputed.
    InvalidTxForDispute,
    /// No dispute exists for the referenced transaction id.
    MissingDisputeTx,
    /// A dispute has already been started for this transaction id.
    DisputeAlreadyExist,
    /// The dispute has already been settled one way or the other.
    DisputeAlreadyHandled,
}

/// Where a dispute stands: `Started` until it is settled, then forever
/// `Resolved` (funds released) or `Reimbursed` (funds charged back).
#[derive(Debug, Clone, Copy, PartialEq, Eq, Structural)]
pub enum DisputeState {
    Started,
    Reimbursed,
    Resolved,
}

impl DisputeState {
    /// Every dispute starts in `Started`.
    pub fn new() -> (r: Self)
        ensures
            r == DisputeState::Started,
    {
        Self::Started
    }
}

/// The mathematical state of one account: the two balances, the lock flag,
/// the history of applied deposits, and the dispute table.
pub ghost struct AccountView {
    pub available: int,
    pub held: int,
    pub locked: bool,
    pub tx_history: Map<u32, Input>,
    pub disputes: Map<u32, (Input, DisputeState)>,
}

/// What one dispute entry contributes to the held balance: its record's
/// amount while the dispute is open, nothing once it is settled.
pub open spec fn dispute_contrib(e: (Input, DisputeState)) -> int {
    if e.1 is Started {
        amount_of(e.0)
    } else {
        0
    }
}

/// The sum of the contributions of all dispute entries.
pub open spec fn started_total(m: Map<u32, (Input, DisputeState)>) -> int
    decreases m.dom().len(),
    when m.dom().finite()
{
    if m.dom().finite() && m.dom().len() > 0 {
        let k = m.dom().choose();
        dispute_contrib(m[k]) + started_total(m.remove(k))
    } else {
        0
    }
}

/// Splitting any one entry off the sum.
proof fn lemma_started_total_remove(m: Map<u32, (Input, DisputeState)>, k: u32)
    requires
        m.dom().finite(),
        m.contains_key(k),
    ensures
        started_total(m) == dispute_contrib(m[k]) + started_total(m.remove(k)),
    decreases m.dom().len(),
{
    let c = m.dom().choose();
    assert(m.dom().contains(c));
    if c == k {
    } else {
        lemma_started_total_remove(m.remove(c), k);
        lemma_started_total_remove(m.remove(k), c);
        assert(m.remove(c).remove(k) =~= m.remove(k).remove(c));
        assert(m.remove(c)[k] == m[k]);
        assert(m.remove(k)[c] == m[c]);
    }
}

/// A sum of entries that all contribute at least nothing is at least
/// nothing.
proof fn lemma_started_total_nonneg(m: Map<u32, (Input, DisputeState)>)
    requires
        m.dom().finite(),
        forall|k: u32| m.contains_key(k) ==> dispute_contrib(#[trigger] m[k]) >= 0,
    ensures
        started_total(m) >= 0,
    decreases m.dom().len(),
{
    if m.dom().len() > 0 {
        let k = m.dom().choose();
        assert(m.dom().contains(k));
        lemma_started_total_nonneg(m.remove(k));
    }
}

/// Inserting a fresh entry adds its contribution to the sum.
proof fn lemma_started_total_insert_new(
    m: Map<u32, (Input, DisputeState)>,
    k: u32,
    e: (Input, DisputeState),
)
    requires
        m.dom().finite(),
        !m.contains_key(k),
    ensures
        started_total(m.insert(k, e)) == started_total(m) + dispute_contrib(e),
{
    lemma_started_total_remove(m.insert(k, e), k);
    assert(m.insert(k, e).remove(k) =~= m);
}

/// Overwriting an entry trades its old contribution for the new one.
proof fn lemma_started_total_update(
    m: Map<u32, (Input, DisputeState)>,
    k: u32,
    e: (Input, DisputeState),
)
    requires
        m.dom().finite(),
        m.contains_key(k),
    ensures
        started_total(m.insert(k, e)) == started_total(m) - dispute_contrib(m[k])
            + dispute_contrib(e),
{
    lemma_started_total_remove(m, k);
    lemma_started_total_remove(m.insert(k, e), k);
    assert(m.insert(k, e).remove(k) =~= m.remove(k));
}

/// The sum covers each single open entry, when no entry contributes
/// negatively.
proof fn lemma_started_total_covers(m: Map<u32, (Input, DisputeState)>, k: u32)
    requires
        m.dom().finite(),
        m.contains_key(k),
        forall|j: u32| m.contains_key(j) ==> dispute_contrib(#[trigger] m[j]) >= 0,
    ensures
        started_total(m) >= dispute_contrib(m[k]),
{
    lemma_started_total_remove(m, k);
    lemma_started_total_nonneg(m.remove(k));
}

/// A history entry is a valid deposit stored under its own transaction id.
pub open spec fn history_entry_ok(t: u32, e: Input) -> bool {
    &&& e.tx_type is Deposit
    &&& e.tx == t
    &&& e.amount is Some
    &&& amount_of(e) > 0
}

impl AccountView {
    /// The total balance: available plus held.
    pub open spec fn total(self) -> int {
        self.available + self.held
    }

    /// Well-formedness, preserved by every operation: neither balance is
    /// negative, the total fits the representation, the history holds only
    /// valid deposits under their own ids, every dispute refers to a
    /// deposit in the history, and the held balance is exactly the sum of
    /// the open disputes' amounts.
    pub open spec fn wf(self) -> bool {
        &&& 0 <= self.available
        &&& 0 <= self.held
        &&& self.available + self.held <= i128::MAX
        &&& self.tx_history.dom().finite()
        &&& self.disputes.dom().finite()
        &&& forall|t: u32|
            #[trigger] self.tx_history.dom().contains(t) ==> history_entry_ok(
                t,
                self.tx_history[t],
            )
        &&& forall|t: u32|
            #[trigger] self.disputes.dom().contains(t) ==> {
                &&& self.tx_history.dom().contains(t)
                &&& history_entry_ok(t, self.disputes[t].0)
            }
        &&& self.held == started_total(self.disputes)
    }

    /// A freshly created account: empty, unlocked, in balance.
    pub open spec fn initial() -> AccountView {
        AccountView {
            available: 0,
            held: 0,
            locked: false,
            tx_history: Map::empty(),
            disputes: Map::empty(),
        }
    }
}

/// One step of the dispute operation: freezes the referenced deposit's
/// amount, in the order the design fixes — unknown id, non-deposit,
/// already-disputed, then insufficient available funds.
pub open spec fn spec_dispute(a: AccountView, tx: u32) -> (AccountView, Result<
    (),
    TransactionError,
>) {
    if !a.tx_history.contains_key(tx) {
        (a, Err(TransactionError::MissingTxId))
    } else {
        let rec = a.tx_history[tx];
        if !(rec.tx_type is Deposit) {
            (a, Err(TransactionError::InvalidTxForDispute))
        } else if a.disputes.contains_key(tx) {
            (a, Err(TransactionError::DisputeAlreadyExist))
        } else if a.available < amount_of(rec) {
            (a, Err(TransactionError::NotEnoughAvailableFunds))
        } else {
            (
                AccountView {
                    available: a.available - amount_of(rec),
                    held: a.held + amount_of(rec),
                    disputes: a.disputes.insert(tx, (rec, DisputeState::Started)),
                    ..a
                },
                Ok(()),
            )
        }
    }
}

/// One step of the resolve operation: releases the disputed amount back to
/// available and settles the dispute as `Resolved`. The subtraction from
/// held cannot drive it negative: held is exactly the sum of the open
/// disputes' amounts, so it always covers the one being settled — see
/// `lemma_apply_preserves_wf`.
pub open spec fn spec_resolve(a: AccountView, tx: u32) -> (AccountView, Result<
    (),
    TransactionError,
>) {
    if !a.tx_history.contains_key(tx) {
        (a, Err(TransactionError::MissingTxId))
    } else if !a.disputes.contains_key(tx) {
        (a, Err(TransactionError::MissingDisputeTx))
    } else {
        let e = a.disputes[tx];
        if !(e.1 is Started) {
            (a, Err(TransactionError::DisputeAlreadyHandled))
        } else {
            (
                AccountView {
                    available: a.available + amount_of(e.0),
                    held: a.held - amount_of(e.0),
                    disputes: a.disputes.insert(tx, (e.0, DisputeState::Resolved)),
                    ..a
                },
                Ok(()),
            )
        }
    }
}

/// One step of the chargeback operation: withdraws the disputed amount
/// from held for good, settles the dispute as `Reimbursed`, and locks the
/// account.
pub open spec fn spec_chargeback(a: AccountView, tx: u32) -> (AccountView, Result<
    (),
    TransactionError,
>) {
    if !a.tx_history.contains_key(tx) {
        (a, Err(TransactionError::MissingTxId))
    } else if !a.disputes.contains_key(tx) {
        (a, Err(TransactionError::MissingDisputeTx))
    } else {
        let e = a.disputes[tx];
        if !(e.1 is Started) {
            (a, Err(TransactionError::DisputeAlreadyHandled))
        } else {
            (
                AccountView {
                    held: a.held - amount_of(e.0),
                    locked: true,
                    disputes: a.disputes.insert(tx, (e.0, DisputeState::Reimbursed)),
                    ..a
                },
                Ok(()),
            )
        }
    }
}

/// The whole transaction state machine, one record at a time: validity
/// first, then the lock, then dispatch by kind. Every failure leaves the
/// account exactly as it was.
pub open spec fn spec_apply(a: AccountView, i: Input) -> (AccountView, Result<
    (),
    TransactionError,
>) {
    if !i.spec_valid() {
        (a, Err(TransactionError::InvalidTx))
    } else if a.locked {
        (a, Err(TransactionError::AccountLocked))
    } else {
        match i.tx_type {
            TransactionType::Deposit => (
                AccountView {
                    available: a.available + amount_of(i),
                    tx_history: a.tx_history.insert(i.tx, i),
                    ..a
                },
                Ok(()),
            ),
            TransactionType::Withdrawal => {
                if a.available >= amount_of(i) {
                    (AccountView { available: a.available - amount_of(i), ..a }, Ok(()))
                } else {
                    (a, Err(TransactionError::NotEnoughAvailableFunds))
                }
            },
            TransactionType::Dispute => spec_dispute(a, i.tx),
            TransactionType::Resolve => spec_resolve(a, i.tx),
            TransactionType::Chargeback => spec_chargeback(a, i.tx),
        }
    }
}

/// No deposit may carry the total past what the representation holds. This
/// is the one machine limit a caller must respect; every other record is
/// accepted or rejected by the state machine itself.
pub open spec fn deposit_fits(a: AccountView, i: Input) -> bool {
    i.spec_valid() && i.tx_type is Deposit ==> a.total() + amount_of(i) <= i128::MAX
}

/// Balance conservation and dispute soundness, preserved by every step:
/// applying any record to a well-formed account yields a well-formed
/// account — `total == available + held` with neither balance negative,
/// so a resolve or chargeback never drives held below zero — and a
/// rejected record leaves the account exactly as it was.
pub proof fn lemma_apply_preserves_wf(a: AccountView, i: Input)
    requires
        a.wf(),
        deposit_fits(a, i),
    ensures
        spec_apply(a, i).0.wf(),
        spec_apply(a, i).1 is Err ==> spec_apply(a, i).0 == a,
{
    if i.spec_valid() && !a.locked {
        let tx = i.tx;
        match i.tx_type {
            TransactionType::Deposit => {
                let b = spec_apply(a, i).0;
                assert(b.tx_history[tx] == i);
                assert(history_entry_ok(tx, i));
                assert forall|t: u32| b.tx_history.contains_key(t) implies history_entry_ok(
                    t,
                    #[trigger] b.tx_history[t],
                ) by {
                    if t != tx {
                        assert(b.tx_history[t] == a.tx_history[t]);
                    }
                }
            },
            TransactionType::Withdrawal => {},
            TransactionType::Dispute => {
                if a.tx_history.contains_key(tx) {
                    let rec = a.tx_history[tx];
                    if rec.tx_type is Deposit && !a.disputes.contains_key(tx) && a.available
                        >= amount_of(rec) {
                        lemma_started_total_insert_new(
                            a.disputes,
                            tx,
                            (rec, DisputeState::Started),
                        );
                    }
                }
            },
            TransactionType::Resolve => {
                if a.tx_history.contains_key(tx) && a.disputes.contains_key(tx) {
                    let e = a.disputes[tx];
                    if e.1 is Started {
                        lemma_started_total_covers(a.disputes, tx);
                        lemma_started_total_update(a.disputes, tx, (e.0, DisputeState::Resolved));
                    }
                }
            },
            TransactionType::Chargeback => {
                if a.tx_history.contains_key(tx) && a.disputes.contains_key(tx) {
                    let e = a.disputes[tx];
                    if e.1 is Started {
                        lemma_started_total_covers(a.disputes, tx);
                        lemma_started_total_update(a.disputes, tx, (e.0, DisputeState::Reimbursed));
                    }
                }
            },
        }
    }
}

/// Disputing the same transaction id twice on the same account fails the
/// second time with `DisputeAlreadyExist`, and the second attempt changes
/// nothing.
pub proof fn lemma_dispute_twice_fails(a: AccountView, i: Input)
    requires
        i.tx_type is Dispute,
        spec_apply(a, i).1 is Ok,
    ensures
        spec_apply(spec_apply(a, i).0, i).1 == Err::<(), TransactionError>(
            TransactionError::DisputeAlreadyExist,
        ),
        spec_apply(spec_apply(a, i).0, i).0 == spec_apply(a, i).0,
{
}

/// Resolving or charging back a transaction id for which no dispute entry
/// exists fails with `MissingDisputeTx` and changes nothing.
pub proof fn lemma_settle_without_dispute_fails(a: AccountView, i: Input)
    requires
        i.spec_valid(),
        !a.locked,
        i.tx_type is Resolve || i.tx_type is Chargeback,
        a.tx_history.contains_key(i.tx),
        !a.disputes.contains_key(i.tx),
    ensures
        spec_apply(a, i).1 == Err::<(), TransactionError>(TransactionError::MissingDisputeTx),
        spec_apply(a, i).0 == a,
{
}

/// Resolving or charging back an already settled dispute — one that is
/// `Resolved` or `Reimbursed` — fails with `DisputeAlreadyHandled` and
/// changes nothing.
pub proof fn lemma_settle_twice_fails(a: AccountView, i: Input)
    requires
        i.spec_valid(),
        !a.locked,
        i.tx_type is Resolve || i.tx_type is Chargeback,
        a.tx_history.contains_key(i.tx),
        a.disputes.contains_key(i.tx),
        !(a.disputes[i.tx].1 is Started),
    ensures
        spec_apply(a, i).1 == Err::<(), TransactionError>(TransactionError::DisputeAlreadyHandled),
        spec_apply(a, i).0 == a,
{
}

/// A chargeback that succeeds locks the account.
pub proof fn lemma_chargeback_locks(a: AccountView, i: Input)
    requires
        i.tx_type is Chargeback,
        spec_apply(a, i).1 is Ok,
    ensures
        spec_apply(a, i).0.locked,
{
}

/// A locked account rejects every valid record with `AccountLocked` and
/// stays exactly as it is. (An invalid record is rejected as invalid
/// before the lock is even consulted, and changes nothing either.)
pub proof fn lemma_locked_rejects(a: AccountView, i: Input)
    requires
        a.locked,
        i.spec_valid(),
    ensures
        spec_apply(a, i).1 == Err::<(), TransactionError>(TransactionError::AccountLocked),
        spec_apply(a, i).0 == a,
{
}

/// A whole stream of records applied in order, record by record.
pub open spec fn spec_apply_all(a: AccountView, s: Seq<Input>) -> AccountView
    decreases s.len(),
{
    if s.len() == 0 {
        a
    } else {
        spec_apply_all(spec_apply(a, s[0]).0, s.drop_first())
    }
}

/// Lock finality: once an account is locked, no stream of further records
/// of any kind, valid or not, ever changes it again.
pub proof fn lemma_lock_final(a: AccountView, s: Seq<Input>)
    requires
        a.locked,
    ensures
        spec_apply_all(a, s) == a,
    decreases s.len(),
{
    if s.len() > 0 {
        assert(spec_apply(a, s[0]).0 == a);
        lemma_lock_final(a, s.drop_first());
    }
}

/// A successful chargeback is final: it locks the account, and no stream
/// of records that follows — deposits, withdrawals or further dispute
/// actions, valid or not — ever changes the account again.
pub proof fn lemma_chargeback_is_final(a: AccountView, i: Input, s: Seq<Input>)
    requires
        i.tx_type is Chargeback,
        spec_apply(a, i).1 is Ok,
    ensures
        spec_apply(a, i).0.locked,
        spec_apply_all(spec_apply(a, i).0, s) == spec_apply(a, i).0,
{
    lemma_chargeback_locks(a, i);
    lemma_lock_final(spec_apply(a, i).0, s);
}

/// One client's ledger: the balances, the lock flag, the history of
/// applied deposits, and the dispute table.
pub struct Account {
    /// Funds usable for withdrawal.
    available: FixedPoint,
    /// Funds frozen pending dispute resolution.
    held: FixedPoint,
    /// Whether a chargeback has frozen the account for good.
    locked: bool,
    /// Every deposit that successfully applied, by transaction id.
    tx_history_db: BTreeMap<u32, Input>,
    /// Every dispute ever started, by transaction id, with its state.
    disputes: BTreeMap<u32, (Input, DisputeState)>,
}

impl View for Account {
    type V = AccountView;

    closed spec fn view(&self) -> AccountView {
        AccountView {
            available: self.available@,
            held: self.held@,
            locked: self.locked,
            tx_history: self.tx_history_db@,
            disputes: self.disputes@,
        }
    }
}

impl Account {
    /// The account is well formed as a mathematical state.
    pub open spec fn wf(self) -> bool {
        self@.wf()
    }

    /// Generates a new empty account.
    pub fn new() -> (r: Account)
        ensures
            r@ == AccountView::initial(),
            r.wf(),
    {
        let r = Account {
            available: FixedPoint::zero(),
            held: FixedPoint::zero(),
            locked: false,
            tx_history_db: BTreeMap::new(),
            disputes: BTreeMap::new(),
        };
        proof {
            assert(Map::<u32, (Input, DisputeState)>::empty().dom() =~= Set::<u32>::empty());
            assert(Map::<u32, Input>::empty().dom() =~= Set::<u32>::empty());
            assert(started_total(Map::<u32, (Input, DisputeState)>::empty()) == 0);
        }
        r
    }

    /// The funds available for withdrawal.
    pub fn available(&self) -> (r: FixedPoint)
        ensures
            r@ == self@.available,
    {
        self.available
    }

    /// The funds held pending dispute resolution.
    pub fn held(&self) -> (r: FixedPoint)
        ensures
            r@ == self@.held,
    {
        self.held
    }

    /// The total balance: held plus available.
    pub fn total(&self) -> (r: FixedPoint)
        requires
            self.wf(),
        ensures
            r@ == self@.total(),
    {
        self.held.add(self.available)
    }

    /// Whether a chargeback has locked the account.
    pub fn locked(&self) -> (r: bool)
        ensures
            r == self@.locked,
    {
        self.locked
    }

    fn lock(&mut self)
        ensures
            final(self)@ == (AccountView { locked: true, ..old(self)@ }),
    {
        self.locked = true;
    }

    /// Decides the one machine limit `handle_transaction` asks its caller
    /// to respect: a deposit must not carry the total past what the
    /// representation holds. Every record that is no valid deposit is
    /// within the limit by definition.
    pub fn can_accept(&self, transaction: &Input) -> (r: bool)
        requires
            self.wf(),
        ensures
            r == deposit_fits(self@, *transaction),
    {
        if !transaction.valid() {
            return true;
        }
        match transaction.tx_type() {
            TransactionType::Deposit => {
                let amount = match transaction.amount_as_fp() {
                    Some(a) => a,
                    None => unreached(),
                };
                let t = self.held.add(self.available);
                match t.scaled().checked_add(amount.scaled()) {
                    Some(_) => true,
                    None => false,
                }
            },
            _ => true,
        }
    }

    /// Applies one record to this ledger: exactly the step that
    /// `spec_apply` describes, preserving well-formedness, and leaving the
    /// ledger untouched whenever the record is rejected.
    pub fn handle_transaction(&mut self, transaction: Input) -> (r: Result<(), TransactionError>)
        requires
            old(self).wf(),
            deposit_fits(old(self)@, transaction),
        ensures
            final(self).wf(),
            final(self)@ == spec_apply(old(self)@, transaction).0,
            r == spec_apply(old(self)@, transaction).1,
    {
        proof {
            lemma_apply_preserves_wf(old(self)@, transaction);
        }
        if !transaction.valid() {
            return Err(TransactionError::InvalidTx);
        }
        if self.locked {
            return Err(TransactionError::AccountLocked);
        }
        match transaction.tx_type() {
            TransactionType::Deposit => {
                let amount = match transaction.amount_as_fp() {
                    Some(a) => a,
                    None => unreached(),
                };
                self.deposit(amount);
                self.tx_history_db.insert(transaction.tx(), transaction);
                Ok(())
            },
            TransactionType::Withdrawal => {
                let amount = match transaction.amount_as_fp() {
                    Some(a) => a,
                    None => unreached(),
                };
                self.withdraw(amount)
            },
            TransactionType::Dispute => self.dispute(transaction.tx()),
            TransactionType::Resolve => self.resolve(transaction.tx()),
            TransactionType::Chargeback => self.chargeback(transaction.tx()),
        }
    }

    fn deposit(&mut self, amount: FixedPoint)
        requires
            i128::MIN <= old(self)@.available + amount@ <= i128::MAX,
        ensures
            final(self)@ == (AccountView {
                available: old(self)@.available + amount@,
                ..old(self)@
            }),
    {
        self.available = self.available.add(amount);
    }

    fn withdraw(&mut self, amount: FixedPoint) -> (r: Result<(), TransactionError>)
        requires
            old(self).wf(),
            0 <= amount@,
        ensures
            old(self)@.available >= amount@ ==> {
                &&& final(self)@ == (AccountView {
                    available: old(self)@.available - amount@,
                    ..old(self)@
                })
                &&& r == Ok::<(), TransactionError>(())
            },
            old(self)@.available < amount@ ==> {
                &&& final(self)@ == old(self)@
                &&& r == Err::<(), TransactionError>(TransactionError::NotEnoughAvailableFunds)
            },
    {
        if self.available.ge(amount) {
            self.available = self.available.sub(amount);
            Ok(())
        } else {
            Err(TransactionError::NotEnoughAvailableFunds)
        }
    }

    fn dispute(&mut self, tx: u32) -> (r: Result<(), TransactionError>)
        requires
            old(self).wf(),
        ensures
            final(self)@ == spec_dispute(old(self)@, tx).0,
            r == spec_dispute(old(self)@, tx).1,
    {
        let rec = match self.search_for_tx(tx) {
            Some(i) => i,
            None => {
                return Err(TransactionError::MissingTxId);
            },
        };
        match rec.tx_type() {
            TransactionType::Deposit => {
                if self.disputes.contains_key(&tx) {
                    Err(TransactionError::DisputeAlreadyExist)
                } else {
                    let amount = match rec.amount_as_fp() {
                        Some(a) => a,
                        None => unreached(),
                    };
                    if self.available.ge(amount) {
                        self.disputes.insert(tx, (rec, DisputeState::new()));
                        self.available = self.available.sub(amount);
                        self.held = self.held.add(amount);
                        Ok(())
                    } else {
                        Err(TransactionError::NotEnoughAvailableFunds)
                    }
                }
            },
            _ => Err(TransactionError::InvalidTxForDispute),
        }
    }

    fn resolve(&mut self, tx: u32) -> (r: Result<(), TransactionError>)
        requires
            old(self).wf(),
        ensures
            final(self)@ == spec_resolve(old(self)@, tx).0,
            r == spec_resolve(old(self)@, tx).1,
    {
        if !self.tx_history_db.contains_key(&tx) {
            return Err(TransactionError::MissingTxId);
        }
        let e = match self.disputes.get(&tx) {
            Some(p) => *p,
            None => {
                return Err(TransactionError::MissingDisputeTx);
            },
        };
        match e.1 {
            DisputeState::Started => {
                let amount = match e.0.amount_as_fp() {
                    Some(a) => a,
                    None => unreached(),
                };
                proof {
                    lemma_started_total_covers(old(self)@.disputes, tx);
                }
                self.held = self.held.sub(amount);
                self.available = self.available.add(amount);
                self.disputes.insert(tx, (e.0, DisputeState::Resolved));
                Ok(())
            },
            _ => Err(TransactionError::DisputeAlreadyHandled),
        }
    }

    fn chargeback(&mut self, tx: u32) -> (r: Result<(), TransactionError>)
        requires
            old(self).wf(),
        ensures
            final(self)@ == spec_chargeback(old(self)@, tx).0,
            r == spec_chargeback(old(self)@, tx).1,
    {
        if !self.tx_history_db.contains_key(&tx) {
            return Err(TransactionError::MissingTxId);
        }
        let e = match self.disputes.get(&tx) {
            Some(p) => *p,
            None => {
                return Err(TransactionError::MissingDisputeTx);
            },
        };
        match e.1 {
            DisputeState::Started => {
                let amount = match e.0.amount_as_fp() {
                    Some(a) => a,
                    None => unreached(),
                };
                proof {
                    lemma_started_total_covers(old(self)@.disputes, tx);
                }
                self.held = self.held.sub(amount);
                self.disputes.insert(tx, (e.0, DisputeState::Reimbursed));
                self.lock();
                Ok(())
            },
            _ => Err(TransactionError::DisputeAlreadyHandled),
        }
    }

    fn search_for_tx(&self, tx: u32) -> (r: Option<Input>)
        ensures
            r == (if self@.tx_history.contains_key(tx) {
                Some(self@.tx_history[tx])
            } else {
                None::<Input>
            }),
    {
        match self.tx_history_db.get(&tx) {
            Some(i) => Some(*i),
            None => None,
        }
    }
}

/// Maps each client id to its own ledger. A ledger is created on first
/// reference to its client id; no record for one client ever observes or
/// changes another client's ledger.
pub struct AccountStorage {
    accounts: BTreeMap<u16, Account>,
}

impl View for AccountStorage {
    type V = Map<u16, Account>;

    closed spec fn view(&self) -> Map<u16, Account> {
        self.accounts@
    }
}

impl AccountStorage {
    /// Every ledger in the storage is well formed.
    pub open spec fn wf(self) -> bool {
        forall|c: u16| #[trigger] self@.dom().contains(c) ==> self@[c].wf()
    }

    /// The state a record for this client id would act on: the client's
    /// ledger, or a fresh one if none exists yet.
    pub open spec fn target(self, client: u16) -> AccountView {
        if self@.contains_key(client) {
            self@[client]@
        } else {
            AccountView::initial()
        }
    }

    /// The record's deposit, if it is one, fits its target ledger.
    pub open spec fn storage_deposit_fits(self, i: Input) -> bool {
        deposit_fits(self.target(i.client), i)
    }

    /// An empty storage.
    pub fn new() -> (r: AccountStorage)
        ensures
            r@ == Map::<u16, Account>::empty(),
            r.wf(),
    {
        AccountStorage { accounts: BTreeMap::new() }
    }

    /// A reference to the mapping from client id to ledger.
    pub fn accounts(&self) -> (r: &BTreeMap<u16, Account>)
        ensures
            r@ == self@,
    {
        &self.accounts
    }

    /// Hands the mapping from client id to ledger out.
    pub fn into_accounts(self) -> (r: BTreeMap<u16, Account>)
        ensures
            r@ == self@,
    {
        self.accounts
    }

    /// Routes one record to the ledger its client id owns, creating that
    /// ledger on first reference. Exactly the step `spec_apply` describes
    /// on that ledger alone; every other client's ledger is untouched.
    pub fn handle_transaction(&mut self, input: Input) -> (r: Result<(), TransactionError>)
        requires
            old(self).wf(),
            old(self).storage_deposit_fits(input),
        ensures
            final(self).wf(),
            final(self)@.dom() == old(self)@.dom().insert(input.client),
            final(self)@[input.client]@ == spec_apply(old(self).target(input.client), input).0,
            final(self)@[input.client].wf(),
            r == spec_apply(old(self).target(input.client), input).1,
            forall|c: u16|
                c != input.client && old(self)@.contains_key(c) ==> final(self)@[c] == old(
                    self,
                )@[c],
            forall|c: u16|
                c != input.client ==> (final(self)@.contains_key(c) <==> old(
                    self,
                )@.contains_key(c)),
    {
        let client = input.client();
        let mut acct = match self.accounts.remove(&client) {
            Some(a) => a,
            None => Account::new(),
        };
        let r = acct.handle_transaction(input);
        self.accounts.insert(client, acct);
        proof {
            assert(self@.dom() =~= old(self)@.dom().insert(input.client));
        }
        r
    }

    /// The ledger of the given client id, created empty on first
    /// reference.
    pub fn get(&mut self, client: u16) -> (r: &Account)
        requires
            old(self).wf(),
        ensures
            final(self).wf(),
            final(self)@.dom() == old(self)@.dom().insert(client),
            (*r)@ == old(self).target(client),
            *r == final(self)@[client],
            forall|c: u16|
                c != client && old(self)@.contains_key(c) ==> final(self)@[c] == old(self)@[c],
    {
        if !self.accounts.contains_key(&client) {
            self.accounts.insert(client, Account::new());
        }
        proof {
            assert(self@.dom() =~= old(self)@.dom().insert(client));
        }
        match self.accounts.get(&client) {
            Some(a) => a,
            None => unreached(),
        }
    }
}

} // verus!
