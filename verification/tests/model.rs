//! The account state machine, exercised through its public operations.
//! Monetary values are fixed-point minor units: 1_000_000 is 100.0000.

use ledger::model::{Account, Balances, Command, Event, EventType, Transaction};

#[test]
fn new_account_test() {
    let account = Account::new(1, 1, 1_000_000);
    assert_eq!(1, account.client_id);
    assert_eq!(1_000_000, account.available);
    assert_eq!(1_000_000, account.total);
    assert_eq!(0, account.held);
}

#[test]
fn make_account_and_deposit_test() {
    let mut account = Account::new(1, 1, 1_000_000);
    let tx = Transaction { id: 2, amount: 2_000_000 };

    let status = account.execute(Command::Deposit(tx));
    assert!(status.is_ok());
    assert_eq!(1, account.client_id);
    assert_eq!(3_000_000, account.available);
    assert_eq!(3_000_000, account.total);
    assert_eq!(0, account.held);
    assert_eq!(2, account.transactions.len());
}

#[test]
fn make_account_and_withdraw_test() {
    let mut account = Account::new(1, 1, 1_000_000);
    let tx = Transaction { id: 2, amount: 500_000 };

    let status = account.execute(Command::Withdrawal(tx));
    assert!(status.is_ok());
    assert_eq!(1, account.client_id);
    assert_eq!(500_000, account.available);
    assert_eq!(500_000, account.total);
    assert_eq!(0, account.held);
    assert_eq!(2, account.transactions.len());
}

#[test]
fn tranasaction_not_found_test() {
    let mut account = Account::new(1, 1, 1_000_000);
    let tx = Transaction { id: 2, amount: 500_000 };

    let status = account.execute(Command::Dispute(tx));
    assert!(status.is_err());
}

#[test]
fn open_dispute_test() {
    let mut account = Account::new(1, 1, 1_000_000);
    let tx = Transaction { id: 1, amount: 500_000 };
    let status = account.execute(Command::Dispute(tx));
    assert!(status.is_ok());
    assert_eq!(1, account.client_id);
    assert_eq!(500_000, account.available);
    assert_eq!(1_000_000, account.total);
    assert_eq!(500_000, account.held);
    assert_eq!(1, account.transactions.len());
    assert_eq!(1, account.open_disputes.len());
}

#[test]
fn resolve_dispute_test() {
    let mut account = Account::new(1, 1, 1_000_000);
    let tx = Transaction { id: 1, amount: 500_000 };
    let status = account.execute(Command::Dispute(tx.clone()));
    assert!(status.is_ok());
    assert_eq!(1, account.client_id);
    assert_eq!(500_000, account.available);
    assert_eq!(1_000_000, account.total);
    assert_eq!(500_000, account.held);
    assert_eq!(1, account.transactions.len());
    assert_eq!(1, account.open_disputes.len());

    let status = account.execute(Command::Resolve(tx));
    assert!(status.is_ok());
    assert_eq!(1, account.client_id);
    assert_eq!(1_000_000, account.available);
    assert_eq!(1_000_000, account.total);
    assert_eq!(0, account.held);
    assert_eq!(1, account.transactions.len());
    assert_eq!(0, account.open_disputes.len());
    assert_eq!(1, account.resolved.len());
}

#[test]
fn chargeback_dispute_test() {
    let mut account = Account::new(1, 1, 1_000_000);
    let tx = Transaction { id: 1, amount: 500_000 };
    let status = account.execute(Command::Dispute(tx.clone()));
    assert!(status.is_ok());
    assert_eq!(1, account.client_id);
    assert_eq!(500_000, account.available);
    assert_eq!(1_000_000, account.total);
    assert_eq!(500_000, account.held);
    assert_eq!(1, account.transactions.len());
    assert_eq!(1, account.open_disputes.len());

    let status = account.execute(Command::Chargeback(tx));
    assert!(status.is_ok());
    assert_eq!(1, account.client_id);
    assert_eq!(500_000, account.available);
    assert_eq!(500_000, account.total);
    assert_eq!(0, account.held);
    assert!(account.locked);
    assert_eq!(1, account.transactions.len());
    assert_eq!(0, account.open_disputes.len());
    assert_eq!(1, account.chargedbacks.len());
}

#[test]
fn balance_test() {
    let mut balances = Balances::new();
    let mut events = vec![];
    for i in 1..100u64 {
        let event = if i % 3 == 0 {
            Event {
                event_type: EventType::Withdrawal,
                transaction_id: i,
                client_id: i % 10 + 1,
                amount: Some(i * 10_000),
            }
        } else {
            Event {
                event_type: EventType::Deposit,
                transaction_id: i,
                client_id: i % 10 + 1,
                amount: Some(i * 10_000),
            }
        };

        events.push(event);
    }

    for e in events {
        let _ = balances.process(e);
    }

    assert_eq!(10, balances.accounts.len());
    for acc in balances.accounts.values() {
        println!("{:?}", acc);
    }
}
