//! Typed transactions: the validated form of a record, carrying exactly
//! the payload its kind allows — an amount for deposits and withdrawals,
//! none for the dispute lifecycle actions.

use crate::accounts::TransactionError;
use crate::input::Input;
use crate::input::TransactionType;
use crate::simple_fp::FixedPoint;
use vstd::prelude::*;

verus! {

/// A chargeback transaction request.
#[derive(Debug, Clone, Copy, PartialEq, Eq)]
pub struct Chargeback {
    pub client: u16,
    pub tx: u32,
}

/// Marking a disputed transaction as resolved.
#[derive(Debug, Clone, Copy, PartialEq, Eq)]
pub struct Resolve {
    pub client: u16,
    pub tx: u32,
}

/// Marking a transaction as disputed, for a certain client.
#[derive(Debug, Clone, Copy, PartialEq, Eq)]
pub struct Dispute {
    pub client: u16,
    pub tx: u32,
}

/// A withdrawal of funds.
#[derive(Debug, Clone, Copy, PartialEq, Eq)]
pub struct Withdrawal {
    pub client: u16,
    pub tx: u32,
    pub amount: FixedPoint,
}

/// A deposit of funds.
#[derive(Debug, Clone, Copy, PartialEq, Eq)]
pub struct Deposit {
    pub client: u16,
    pub tx: u32,
    pub amount: FixedPoint,
}

/// The different types of transactions that can occur, each with the
/// payload its kind carries.
#[derive(Debug, Clone, Copy, PartialEq, Eq)]
pub enum Transaction {
    Deposit(Deposit),
    Withdrawal(Withdrawal),
    Dispute(Dispute),
    Resolve(Resolve),
    Chargeback(Chargeback),
}

/// The typed transaction a valid record denotes.
pub open spec fn transaction_of(i: Input) -> Transaction {
    match i.tx_type {
        TransactionType::Deposit => Transaction::Deposit(
            Deposit { client: i.client, tx: i.tx, amount: i.amount->Some_0 },
        ),
        TransactionType::Withdrawal => Transaction::Withdrawal(
            Withdrawal { client: i.client, tx: i.tx, amount: i.amount->Some_0 },
        ),
        TransactionType::Dispute => Transaction::Dispute(Dispute { client: i.client, tx: i.tx }),
        TransactionType::Resolve => Transaction::Resolve(Resolve { client: i.client, tx: i.tx }),
        TransactionType::Chargeback => Transaction::Chargeback(
            Chargeback { client: i.client, tx: i.tx },
        ),
    }
}

impl Transaction {
    /// Validates a record into a typed transaction; an invalid record is
    /// rejected with `InvalidTx`.
    pub fn try_from(input: Input) -> (r: Result<Transaction, TransactionError>)
        ensures
            input.spec_valid() ==> r == Ok::<Transaction, TransactionError>(transaction_of(input)),
            !input.spec_valid() ==> r == Err::<Transaction, TransactionError>(
                TransactionError::InvalidTx,
            ),
    {
        if !input.valid() {
            return Err(TransactionError::InvalidTx);
        }
        match input.tx_type() {
            TransactionType::Deposit => {
                let amount = match input.amount_as_fp() {
                    Some(a) => a,
                    None => unreached(),
                };
                Ok(
                    Transaction::Deposit(
                        Deposit { client: input.client(), tx: input.tx(), amount },
                    ),
                )
            },
            TransactionType::Withdrawal => {
                let amount = match input.amount_as_fp() {
                    Some(a) => a,
                    None => unreached(),
                };
                Ok(
                    Transaction::Withdrawal(
                        Withdrawal { client: input.client(), tx: input.tx(), amount },
                    ),
                )
            },
            TransactionType::Dispute => Ok(
                Transaction::Dispute(Dispute { client: input.client(), tx: input.tx() }),
            ),
            TransactionType::Resolve => Ok(
                Transaction::Resolve(Resolve { client: input.client(), tx: input.tx() }),
            ),
            TransactionType::Chargeback => Ok(
                Transaction::Chargeback(Chargeback { client: input.client(), tx: input.tx() }),
            ),
        }
    }
}

} // verus!
