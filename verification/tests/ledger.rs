use payledger::accounts::Account;
use payledger::accounts::AccountStorage;
use payledger::accounts::TransactionError;
use payledger::input::Input;
use payledger::input::TransactionType;
use payledger::FixedPoint;

fn fp(s: &str) -> FixedPoint {
    FixedPoint::from_decimal(s).unwrap()
}

fn deposit(client: u16, tx: u32, amount: &str) -> Input {
    Input::new(TransactionType::Deposit, client, tx, Some(fp(amount)))
}

fn withdrawal(client: u16, tx: u32, amount: &str) -> Input {
    Input::new(TransactionType::Withdrawal, client, tx, Some(fp(amount)))
}

fn dispute(client: u16, tx: u32) -> Input {
    Input::new(TransactionType::Dispute, client, tx, None)
}

fn resolve(client: u16, tx: u32) -> Input {
    Input::new(TransactionType::Resolve, client, tx, None)
}

fn chargeback(client: u16, tx: u32) -> Input {
    Input::new(TransactionType::Chargeback, client, tx, None)
}

#[test]
fn account_deposit_withdraw() {
    let mut account = Account::new();

    let res = account.handle_transaction(deposit(1, 1, "55.1234"));
    assert!(res.is_ok());
    assert_eq!(fp("55.1234"), account.available());

    // Withdrawing too much should fail
    let res = account.handle_transaction(withdrawal(1, 2, "56.1234"));
    assert_eq!(res, Err(TransactionError::NotEnoughAvailableFunds));
    assert_eq!(fp("55.1234"), account.available());

    // Withdrawing a small amount should work
    let res = account.handle_transaction(withdrawal(1, 3, "0.1234"));
    assert!(res.is_ok());
    assert_eq!(fp("55.0"), account.available());
    assert_eq!(fp("55.0"), account.total());

    // Withdrawing everything should work
    let res = account.handle_transaction(withdrawal(1, 3, "55.0"));
    assert!(res.is_ok());
    assert_eq!(fp("0.0"), account.available());
    assert_eq!(fp("0.0"), account.total());
}

#[test]
fn account_deposited_dispute() {
    let mut account = Account::new();

    let res = account.handle_transaction(deposit(1, 1, "50.0"));
    assert!(res.is_ok());
    let res = account.handle_transaction(deposit(1, 2, "5.1234"));
    assert!(res.is_ok());
    assert_eq!(fp("55.1234"), account.available());

    let res = account.handle_transaction(dispute(1, 1));
    assert!(res.is_ok());
    assert_eq!(fp("55.1234"), account.total());
    assert_eq!(fp("50.0"), account.held());
    assert_eq!(fp("5.1234"), account.available());

    // A small withdrawal against the still-free available funds works,
    // leaving exactly 5.0000
    let res = account.handle_transaction(withdrawal(1, 3, "0.1234"));
    assert!(res.is_ok());
    assert_eq!(fp("5.0"), account.available());
    assert_eq!(fp("50.0"), account.held());
    assert_eq!(fp("55.0"), account.total());
}

#[test]
fn account_dispute_chargeback() {
    let mut account = Account::new();

    let res = account.handle_transaction(deposit(1, 1, "50.0"));
    assert!(res.is_ok());

    let res = account.handle_transaction(dispute(1, 1));
    assert!(res.is_ok());
    assert_eq!(fp("0.0"), account.available());
    assert_eq!(fp("50.0"), account.held());
    assert_eq!(fp("50.0"), account.total());
    assert_eq!(false, account.locked(), "account locked state was wrong");

    let res = account.handle_transaction(chargeback(1, 1));
    assert!(res.is_ok());
    assert_eq!(fp("0.0"), account.held(), "held amount was wrong");
    assert_eq!(fp("0.0"), account.available(), "available amount was wrong");
    assert_eq!(fp("0.0"), account.total(), "total amount was wrong");
    assert_eq!(true, account.locked(), "account locked state was wrong");

    // A subsequent deposit for the same client fails: the lock is final.
    let res = account.handle_transaction(deposit(1, 2, "1.0"));
    assert_eq!(res, Err(TransactionError::AccountLocked));
    assert_eq!(fp("0.0"), account.total());
}

#[test]
fn balance_conservation_through_lifecycle() {
    // total == available + held at every observable point, and neither
    // balance ever goes negative.
    let mut account = Account::new();
    let records = vec![
        deposit(7, 1, "100.0000"),
        deposit(7, 2, "0.0001"),
        withdrawal(7, 3, "30.5000"),
        dispute(7, 1),
        resolve(7, 1),
        dispute(7, 2),
        withdrawal(7, 4, "12.2500"),
        chargeback(7, 2),
    ];
    for r in records {
        let _ = account.handle_transaction(r);
        let a = account.available().scaled();
        let h = account.held().scaled();
        let t = account.total().scaled();
        assert_eq!(t, a + h);
        assert!(a >= 0);
        assert!(h >= 0);
    }
}

#[test]
fn dispute_twice_fails() {
    let mut account = Account::new();
    assert!(account.handle_transaction(deposit(1, 1, "10.0")).is_ok());
    assert!(account.handle_transaction(dispute(1, 1)).is_ok());
    let res = account.handle_transaction(dispute(1, 1));
    assert_eq!(res, Err(TransactionError::DisputeAlreadyExist));
    assert_eq!(fp("10.0"), account.held());
    assert_eq!(fp("0.0"), account.available());
}

#[test]
fn settle_without_dispute_fails() {
    let mut account = Account::new();
    assert!(account.handle_transaction(deposit(1, 1, "10.0")).is_ok());
    let res = account.handle_transaction(resolve(1, 1));
    assert_eq!(res, Err(TransactionError::MissingDisputeTx));
    let res = account.handle_transaction(chargeback(1, 1));
    assert_eq!(res, Err(TransactionError::MissingDisputeTx));
    assert_eq!(fp("10.0"), account.available());
}

#[test]
fn settle_twice_fails() {
    let mut account = Account::new();
    assert!(account.handle_transaction(deposit(1, 1, "10.0")).is_ok());
    assert!(account.handle_transaction(dispute(1, 1)).is_ok());
    assert!(account.handle_transaction(resolve(1, 1)).is_ok());
    assert_eq!(fp("10.0"), account.available());
    assert_eq!(fp("0.0"), account.held());

    let res = account.handle_transaction(resolve(1, 1));
    assert_eq!(res, Err(TransactionError::DisputeAlreadyHandled));
    let res = account.handle_transaction(chargeback(1, 1));
    assert_eq!(res, Err(TransactionError::DisputeAlreadyHandled));
    assert_eq!(fp("10.0"), account.available());
}

#[test]
fn lock_is_final_for_every_kind() {
    let mut account = Account::new();
    assert!(account.handle_transaction(deposit(1, 1, "10.0")).is_ok());
    assert!(account.handle_transaction(deposit(1, 2, "3.0")).is_ok());
    assert!(account.handle_transaction(dispute(1, 1)).is_ok());
    assert!(account.handle_transaction(chargeback(1, 1)).is_ok());
    assert!(account.locked());

    let followers = vec![
        deposit(1, 5, "1.0"),
        withdrawal(1, 6, "1.0"),
        dispute(1, 2),
        resolve(1, 2),
        chargeback(1, 2),
    ];
    for r in followers {
        let res = account.handle_transaction(r);
        assert_eq!(res, Err(TransactionError::AccountLocked));
        assert_eq!(fp("3.0"), account.available());
        assert_eq!(fp("0.0"), account.held());
        assert!(account.locked());
    }
}

#[test]
fn dispute_unknown_tx_fails() {
    let mut account = Account::new();
    assert!(account.handle_transaction(deposit(1, 1, "10.0")).is_ok());
    let res = account.handle_transaction(dispute(1, 99));
    assert_eq!(res, Err(TransactionError::MissingTxId));
    // A withdrawal is never recorded in the history, so disputing its id
    // also finds no transaction.
    assert!(account.handle_transaction(withdrawal(1, 2, "1.0")).is_ok());
    let res = account.handle_transaction(dispute(1, 2));
    assert_eq!(res, Err(TransactionError::MissingTxId));
}

#[test]
fn dispute_after_spending_fails() {
    let mut account = Account::new();
    assert!(account.handle_transaction(deposit(1, 1, "10.0")).is_ok());
    assert!(account.handle_transaction(withdrawal(1, 2, "8.0")).is_ok());
    // The deposited funds are already spent: they cannot be moved to held.
    let res = account.handle_transaction(dispute(1, 1));
    assert_eq!(res, Err(TransactionError::NotEnoughAvailableFunds));
    assert_eq!(fp("2.0"), account.available());
    assert_eq!(fp("0.0"), account.held());
}

#[test]
fn invalid_records_are_rejected() {
    let mut account = Account::new();
    // A deposit without an amount is invalid.
    let res = account.handle_transaction(Input::new(TransactionType::Deposit, 1, 1, None));
    assert_eq!(res, Err(TransactionError::InvalidTx));
    // A dispute carrying an amount is invalid.
    let res = account.handle_transaction(Input::new(
        TransactionType::Dispute,
        1,
        1,
        Some(fp("1.0")),
    ));
    assert_eq!(res, Err(TransactionError::InvalidTx));
    // A zero amount is not strictly positive.
    let res = account.handle_transaction(Input::new(
        TransactionType::Withdrawal,
        1,
        1,
        Some(fp("0.0000")),
    ));
    assert_eq!(res, Err(TransactionError::InvalidTx));
    assert_eq!(fp("0.0"), account.total());
}

#[test]
fn storage_isolates_clients() {
    let mut storage = AccountStorage::new();
    assert!(storage.handle_transaction(deposit(1, 1, "10.0")).is_ok());
    assert!(storage.handle_transaction(deposit(2, 2, "20.0")).is_ok());
    assert!(storage.handle_transaction(dispute(1, 1)).is_ok());

    // Client 2's dispute of client 1's transaction id finds nothing:
    // dispute lookups are scoped to one client's own history.
    let res = storage.handle_transaction(dispute(2, 1));
    assert_eq!(res, Err(TransactionError::MissingTxId));

    let a1 = storage.get(1);
    assert_eq!(fp("0.0"), a1.available());
    assert_eq!(fp("10.0"), a1.held());
    let a2 = storage.get(2);
    assert_eq!(fp("20.0"), a2.available());
    assert_eq!(fp("0.0"), a2.held());

    let accounts = storage.into_accounts();
    assert_eq!(2, accounts.len());
    assert!(accounts.contains_key(&1));
    assert!(accounts.contains_key(&2));
}

#[test]
fn storage_creates_on_first_reference() {
    let mut storage = AccountStorage::new();
    let a = storage.get(9);
    assert_eq!(fp("0.0"), a.total());
    assert!(!a.locked());
    assert_eq!(1, storage.accounts().len());
}
