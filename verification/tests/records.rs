use payledger::accounts::AccountStorage;
use payledger::input::Input;
use payledger::input::TransactionType;
use payledger::output::report_lines;
use payledger::output::Output;
use payledger::accounts::TransactionError;
use payledger::transaction::Transaction;
use payledger::FixedPoint;

fn fp(s: &str) -> FixedPoint {
    FixedPoint::from_decimal(s).unwrap()
}

#[test]
fn validity_rule_per_kind() {
    let with = Some(fp("1.0"));
    assert!(Input::new(TransactionType::Deposit, 1, 1, with).valid());
    assert!(!Input::new(TransactionType::Deposit, 1, 1, None).valid());
    assert!(Input::new(TransactionType::Withdrawal, 1, 1, with).valid());
    assert!(!Input::new(TransactionType::Withdrawal, 1, 1, None).valid());
    assert!(Input::new(TransactionType::Dispute, 1, 1, None).valid());
    assert!(!Input::new(TransactionType::Dispute, 1, 1, with).valid());
    assert!(Input::new(TransactionType::Resolve, 1, 1, None).valid());
    assert!(!Input::new(TransactionType::Resolve, 1, 1, with).valid());
    assert!(Input::new(TransactionType::Chargeback, 1, 1, None).valid());
    assert!(!Input::new(TransactionType::Chargeback, 1, 1, with).valid());
    // Zero is not strictly positive.
    assert!(!Input::new(TransactionType::Deposit, 1, 1, Some(fp("0.0000"))).valid());
}

#[test]
fn record_getters() {
    let i = Input::new(TransactionType::Withdrawal, 3, 77, Some(fp("2.5")));
    assert_eq!(3, i.client());
    assert_eq!(77, i.tx());
    assert_eq!(TransactionType::Withdrawal, i.tx_type());
    assert_eq!(Some(fp("2.5")), i.amount_as_fp());
}

#[test]
fn kind_names_round_trip() {
    let kinds = vec![
        TransactionType::Deposit,
        TransactionType::Withdrawal,
        TransactionType::Dispute,
        TransactionType::Resolve,
        TransactionType::Chargeback,
    ];
    for k in kinds {
        assert_eq!(Some(k), TransactionType::parse(k.name()));
    }
}

#[test]
fn kind_parse_ignores_ascii_case() {
    assert_eq!(Some(TransactionType::Deposit), TransactionType::parse("DePoSiT"));
    assert_eq!(Some(TransactionType::Withdrawal), TransactionType::parse("WITHDRAWAL"));
    assert_eq!(Some(TransactionType::Chargeback), TransactionType::parse("Chargeback"));
    assert_eq!(None, TransactionType::parse("deposits"));
    assert_eq!(None, TransactionType::parse("deposit "));
    assert_eq!(None, TransactionType::parse(""));
    assert_eq!(None, TransactionType::parse("transfer"));
}

#[test]
fn typed_transaction_from_valid_record() {
    let i = Input::new(TransactionType::Deposit, 5, 9, Some(fp("3.5")));
    match Transaction::try_from(i) {
        Ok(Transaction::Deposit(d)) => {
            assert_eq!(5, d.client);
            assert_eq!(9, d.tx);
            assert_eq!(fp("3.5"), d.amount);
        },
        other => panic!("expected a deposit, got {:?}", other),
    }
    let i = Input::new(TransactionType::Resolve, 5, 9, None);
    match Transaction::try_from(i) {
        Ok(Transaction::Resolve(r)) => {
            assert_eq!(5, r.client);
            assert_eq!(9, r.tx);
        },
        other => panic!("expected a resolve, got {:?}", other),
    }
}

#[test]
fn typed_transaction_rejects_invalid_record() {
    let i = Input::new(TransactionType::Dispute, 5, 9, Some(fp("3.5")));
    assert_eq!(Err(TransactionError::InvalidTx), Transaction::try_from(i));
    let i = Input::new(TransactionType::Deposit, 5, 9, None);
    assert_eq!(Err(TransactionError::InvalidTx), Transaction::try_from(i));
}

#[test]
fn report_lines_cover_every_client_in_id_order() {
    let mut storage = AccountStorage::new();
    let dep = |client: u16, tx: u32, amount: &str| {
        Input::new(TransactionType::Deposit, client, tx, Some(fp(amount)))
    };
    assert!(storage.handle_transaction(dep(7, 1, "1.5")).is_ok());
    assert!(storage.handle_transaction(dep(2, 2, "20.0")).is_ok());
    assert!(storage.handle_transaction(dep(7, 3, "0.25")).is_ok());

    let accounts = storage.into_accounts();
    let lines = report_lines(&accounts);
    assert_eq!(
        vec!["2, 20.0000, 0.0000, 20.0000, false", "7, 1.7500, 0.0000, 1.7500, false"],
        lines
    );
}

#[test]
fn report_line_format() {
    let line = Output {
        client: 1,
        available: fp("55.1234"),
        held: fp("0.0000"),
        total: fp("55.1234"),
        locked: false,
    }
    .csv_line();
    assert_eq!("1, 55.1234, 0.0000, 55.1234, false", line);

    let line = Output {
        client: 65535,
        available: fp("0.0000"),
        held: fp("12.5000"),
        total: fp("12.5000"),
        locked: true,
    }
    .csv_line();
    assert_eq!("65535, 0.0000, 12.5000, 12.5000, true", line);
}
