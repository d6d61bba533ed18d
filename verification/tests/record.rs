//! Decoding record lines into events.

use ledger::model::{Event, EventType};
use ledger::record::{parse_amount, parse_record, parse_u64, RecordDecodeError};

#[test]
fn decodes_a_deposit_line() {
    let event = parse_record(b"deposit,1,1,100.0").unwrap();
    assert_eq!(
        event,
        Event {
            event_type: EventType::Deposit,
            transaction_id: 1,
            client_id: 1,
            amount: Some(1_000_000),
        }
    );
}

#[test]
fn operation_name_ignores_ascii_case() {
    let event = parse_record(b"DePoSiT,2,3,0.5").unwrap();
    assert_eq!(event.event_type, EventType::Deposit);
    assert_eq!(event.amount, Some(5_000));
    assert_eq!(EventType::try_from("Chargeback"), Ok(EventType::Chargeback));
    assert!(EventType::try_from("transfer").is_err());
}

#[test]
fn decodes_every_operation_name() {
    assert_eq!(
        parse_record(b"withdrawal,9,4,2.25").unwrap().event_type,
        EventType::Withdrawal
    );
    assert_eq!(parse_record(b"dispute,9,4").unwrap().event_type, EventType::Dispute);
    assert_eq!(parse_record(b"resolve,9,4").unwrap().event_type, EventType::Resolve);
    assert_eq!(
        parse_record(b"chargeback,9,4").unwrap().event_type,
        EventType::Chargeback
    );
}

#[test]
fn amount_scales_to_four_decimal_places() {
    assert_eq!(parse_amount(b"1"), Some(10_000));
    assert_eq!(parse_amount(b"1.5"), Some(15_000));
    assert_eq!(parse_amount(b"1.2345"), Some(12_345));
    assert_eq!(parse_amount(b"0.0001"), Some(1));
    assert_eq!(parse_amount(b"100.0"), Some(1_000_000));
}

#[test]
fn malformed_amounts_are_rejected() {
    assert_eq!(parse_amount(b"1.23456"), None);
    assert_eq!(parse_amount(b".5"), None);
    assert_eq!(parse_amount(b"1."), None);
    assert_eq!(parse_amount(b""), None);
    assert_eq!(parse_amount(b"-1"), None);
    assert_eq!(parse_amount(b"1.2.3"), None);
}

#[test]
fn amount_overflow_is_rejected_at_the_exact_bound() {
    // u64::MAX is 18446744073709551615 minor units.
    assert_eq!(parse_amount(b"1844674407370955.1615"), Some(u64::MAX));
    assert_eq!(parse_amount(b"1844674407370955.1616"), None);
}

#[test]
fn transaction_id_overflow_is_rejected_at_the_exact_bound() {
    let event = parse_record(b"deposit,18446744073709551615,1,1.0").unwrap();
    assert_eq!(event.transaction_id, u64::MAX);
    assert_eq!(
        parse_record(b"deposit,18446744073709551616,1,1.0"),
        Err(RecordDecodeError)
    );
    assert_eq!(parse_u64(b"184467440737095516150"), None);
}

#[test]
fn dispute_family_lines_may_omit_the_amount() {
    let event = parse_record(b"dispute,5,1").unwrap();
    assert_eq!(event.amount, None);
    let event = parse_record(b"resolve,5,1,").unwrap();
    assert_eq!(event.amount, None);
    let event = parse_record(b"chargeback,5,1,7.5").unwrap();
    assert_eq!(event.amount, Some(75_000));
}

#[test]
fn malformed_lines_are_rejected() {
    // a deposit or withdrawal needs an amount
    assert_eq!(parse_record(b"deposit,5,1"), Err(RecordDecodeError));
    assert_eq!(parse_record(b"withdrawal,5,1,"), Err(RecordDecodeError));
    // too few or too many fields
    assert_eq!(parse_record(b"deposit,5"), Err(RecordDecodeError));
    assert_eq!(parse_record(b"deposit,1,1,1.0,9"), Err(RecordDecodeError));
    assert_eq!(parse_record(b""), Err(RecordDecodeError));
    // fields that do not decode
    assert_eq!(parse_record(b"transfer,1,1,1.0"), Err(RecordDecodeError));
    assert_eq!(parse_record(b"deposit,abc,1,1.0"), Err(RecordDecodeError));
    assert_eq!(parse_record(b"deposit,1,one,1.0"), Err(RecordDecodeError));
    assert_eq!(parse_record(b"deposit,1,1,abc"), Err(RecordDecodeError));
    // the original's spaces are not trimmed
    assert_eq!(parse_record(b"deposit, 1, 1, 1.0"), Err(RecordDecodeError));
}
