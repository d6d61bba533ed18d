//! Decoding of one input record line.
//!
//! A record is a comma-separated line `type,tx,client,amount` where `type`
//! names the operation (matched without regard to ASCII case), `tx` and
//! `client` are decimal unsigned integers, and `amount` — present only for
//! deposits and withdrawals — is a non-negative decimal number with at most
//! four digits after the point, read into fixed-point minor units.

use crate::model::{Event, EventType};
use vstd::prelude::*;
use vstd::string::StringSliceAdditionalSpecFns;

verus! {

/// Why a record line was rejected. The line is skipped; the run goes on.
#[derive(Debug, PartialEq, Eq, Structural, Clone, Copy)]
pub struct RecordDecodeError;

/// Minor units per whole unit of money: amounts carry four decimal places.
pub const AMOUNT_SCALE: u64 = 10000;

/// ASCII lower-casing of one byte; anything but `A`..`Z` is unchanged.
pub open spec fn lower(b: u8) -> u8 {
    if 'A' as u8 <= b && b <= 'Z' as u8 {
        (b + 32) as u8
    } else {
        b
    }
}

/// Whether `b` is an ASCII decimal digit.
pub open spec fn is_digit(b: u8) -> bool {
    '0' as u8 <= b && b <= '9' as u8
}

/// Whether `s` consists of decimal digits only.
pub open spec fn all_digits(s: Seq<u8>) -> bool {
    forall|i: int| 0 <= i < s.len() ==> is_digit(#[trigger] s[i])
}

/// The number that a digit string denotes, most significant digit first.
pub open spec fn dec_value(s: Seq<u8>) -> nat
    decreases s.len(),
{
    if s.len() == 0 {
        0
    } else {
        (dec_value(s.drop_last()) * 10 + (s.last() - '0' as u8)) as nat
    }
}

/// What a decimal `u64` field means: a non-empty digit string whose value
/// fits in a `u64`; anything else is rejected.
pub open spec fn parse_u64_spec(s: Seq<u8>) -> Option<u64> {
    if s.len() > 0 && all_digits(s) && dec_value(s) <= u64::MAX {
        Some(dec_value(s) as u64)
    } else {
        None
    }
}

/// Decodes a decimal unsigned integer field.
pub fn parse_u64(s: &[u8]) -> (result: Option<u64>)
    ensures
        result == parse_u64_spec(s@),
{
    if s.len() == 0 {
        return None;
    }
    let mut value: u64 = 0;
    let mut i: usize = 0;
    while i < s.len()
        invariant
            i <= s@.len(),
            all_digits(s@.take(i as int)),
            value == dec_value(s@.take(i as int)),
        decreases s@.len() - i,
    {
        let b = s[i];
        if b < '0' as u8 || b > '9' as u8 {
            proof {
                assert(!is_digit(s@[i as int]));
            }
            return None;
        }
        let digit = (b - '0' as u8) as u64;
        if value > (u64::MAX - digit) / 10 {
            proof {
                if all_digits(s@) {
                    assert(s@.take(i as int + 1).drop_last() =~= s@.take(i as int));
                    assert(s@.take(i as int + 1).last() == s@[i as int]);
                    assert(dec_value(s@.take(i as int + 1)) == value * 10 + digit);
                    lemma_dec_value_grows(s@, i as int + 1);
                    lemma_pow10_pos((s@.len() - i - 1) as nat);
                    assert(dec_value(s@) >= dec_value(s@.take(i as int + 1))) by (nonlinear_arith)
                        requires
                            dec_value(s@) >= dec_value(s@.take(i as int + 1)) * pow10(
                                (s@.len() - i - 1) as nat,
                            ),
                            pow10((s@.len() - i - 1) as nat) >= 1,
                    ;
                }
            }
            return None;
        }
        value = value * 10 + digit;
        i = i + 1;
        proof {
            assert(s@.take(i as int).drop_last() =~= s@.take(i as int - 1));
        }
    }
    proof {
        assert(s@.take(s@.len() as int) =~= s@);
    }
    Some(value)
}

/// A digit string is worth at least its prefix scaled up by the remaining
/// digits: once a prefix exceeds `u64::MAX / 10`, the whole string exceeds
/// `u64::MAX`.
proof fn lemma_dec_value_grows(s: Seq<u8>, i: int)
    requires
        all_digits(s),
        0 < i <= s.len(),
    ensures
        dec_value(s) >= dec_value(s.take(i)) * pow10((s.len() - i) as nat),
    decreases s.len() - i,
{
    if i == s.len() {
        assert(s.take(i) =~= s);
        assert(pow10((s.len() - i) as nat) == 1);
        assert(dec_value(s) >= dec_value(s.take(i)) * pow10((s.len() - i) as nat))
            by (nonlinear_arith)
            requires
                dec_value(s.take(i)) == dec_value(s),
                pow10((s.len() - i) as nat) == 1,
        ;
    } else {
        lemma_dec_value_grows(s, i + 1);
        assert(s.take(i + 1).drop_last() =~= s.take(i));
        assert(dec_value(s.take(i + 1)) >= dec_value(s.take(i)) * 10);
        let rest = (s.len() - i - 1) as nat;
        assert((s.len() - i) as nat == rest + 1);
        assert(pow10(rest + 1) == 10 * pow10(rest));
        assert(dec_value(s) >= dec_value(s.take(i)) * pow10(rest + 1)) by (nonlinear_arith)
            requires
                dec_value(s) >= dec_value(s.take(i + 1)) * pow10(rest),
                dec_value(s.take(i + 1)) >= dec_value(s.take(i)) * 10,
                pow10(rest + 1) == 10 * pow10(rest),
        ;
    }
}

/// Powers of ten.
pub open spec fn pow10(n: nat) -> nat
    decreases n,
{
    if n == 0 {
        1
    } else {
        10 * pow10((n - 1) as nat)
    }
}

/// `s` lower-cased byte by byte.
pub open spec fn lower_seq(s: Seq<u8>) -> Seq<u8> {
    s.map_values(|b: u8| lower(b))
}

/// The bytes of the operation name `deposit`.
pub open spec fn deposit_name() -> Seq<u8> {
    seq!['d' as u8, 'e' as u8, 'p' as u8, 'o' as u8, 's' as u8, 'i' as u8, 't' as u8]
}

/// The bytes of the operation name `withdrawal`.
pub open spec fn withdrawal_name() -> Seq<u8> {
    seq![
        'w' as u8,
        'i' as u8,
        't' as u8,
        'h' as u8,
        'd' as u8,
        'r' as u8,
        'a' as u8,
        'w' as u8,
        'a' as u8,
        'l' as u8,
    ]
}

/// The bytes of the operation name `dispute`.
pub open spec fn dispute_name() -> Seq<u8> {
    seq!['d' as u8, 'i' as u8, 's' as u8, 'p' as u8, 'u' as u8, 't' as u8, 'e' as u8]
}

/// The bytes of the operation name `resolve`.
pub open spec fn resolve_name() -> Seq<u8> {
    seq!['r' as u8, 'e' as u8, 's' as u8, 'o' as u8, 'l' as u8, 'v' as u8, 'e' as u8]
}

/// The bytes of the operation name `chargeback`.
pub open spec fn chargeback_name() -> Seq<u8> {
    seq![
        'c' as u8,
        'h' as u8,
        'a' as u8,
        'r' as u8,
        'g' as u8,
        'e' as u8,
        'b' as u8,
        'a' as u8,
        'c' as u8,
        'k' as u8,
    ]
}

/// What the operation-name field means, matched without regard to ASCII
/// case; any other name is rejected.
pub open spec fn event_type_spec(s: Seq<u8>) -> Option<EventType> {
    if lower_seq(s) == deposit_name() {
        Some(EventType::Deposit)
    } else if lower_seq(s) == withdrawal_name() {
        Some(EventType::Withdrawal)
    } else if lower_seq(s) == dispute_name() {
        Some(EventType::Dispute)
    } else if lower_seq(s) == resolve_name() {
        Some(EventType::Resolve)
    } else if lower_seq(s) == chargeback_name() {
        Some(EventType::Chargeback)
    } else {
        None
    }
}

impl EventType {
    /// Decodes an operation name given as a string, matched without regard
    /// to ASCII case.
    pub fn try_from(value: &str) -> (result: Result<EventType, RecordDecodeError>)
        ensures
            match result {
                Ok(event_type) => event_type_spec(value.spec_bytes()) == Some(event_type),
                Err(_) => event_type_spec(value.spec_bytes()) == None::<EventType>,
            },
    {
        match event_type_of(value.as_bytes()) {
            Some(event_type) => Ok(event_type),
            None => Err(RecordDecodeError),
        }
    }
}

/// ASCII lower-casing of one byte.
fn lower_byte(b: u8) -> (result: u8)
    ensures
        result == lower(b),
{
    if 'A' as u8 <= b && b <= 'Z' as u8 {
        b + 32
    } else {
        b
    }
}

/// Whether `s`, lower-cased, is exactly `keyword`.
fn eq_ignore_case(s: &[u8], keyword: &Vec<u8>) -> (result: bool)
    ensures
        result == (lower_seq(s@) == keyword@),
{
    if s.len() != keyword.len() {
        proof {
            assert(lower_seq(s@).len() == s@.len());
        }
        return false;
    }
    let mut i: usize = 0;
    while i < s.len()
        invariant
            s@.len() == keyword@.len(),
            i <= s@.len(),
            forall|j: int| 0 <= j < i ==> lower_seq(s@)[j] == keyword@[j],
        decreases s@.len() - i,
    {
        if lower_byte(s[i]) != keyword[i] {
            proof {
                assert(lower_seq(s@)[i as int] != keyword@[i as int]);
            }
            return false;
        }
        i = i + 1;
    }
    proof {
        assert(lower_seq(s@) =~= keyword@);
    }
    true
}

/// Decodes the operation-name field.
pub fn event_type_of(s: &[u8]) -> (result: Option<EventType>)
    ensures
        result == event_type_spec(s@),
{
    let deposit: Vec<u8> = vec!['d' as u8, 'e' as u8, 'p' as u8, 'o' as u8, 's' as u8, 'i' as u8, 't' as u8];
    let withdrawal: Vec<u8> = vec![
        'w' as u8,
        'i' as u8,
        't' as u8,
        'h' as u8,
        'd' as u8,
        'r' as u8,
        'a' as u8,
        'w' as u8,
        'a' as u8,
        'l' as u8,
    ];
    let dispute: Vec<u8> = vec!['d' as u8, 'i' as u8, 's' as u8, 'p' as u8, 'u' as u8, 't' as u8, 'e' as u8];
    let resolve: Vec<u8> = vec!['r' as u8, 'e' as u8, 's' as u8, 'o' as u8, 'l' as u8, 'v' as u8, 'e' as u8];
    let chargeback: Vec<u8> = vec![
        'c' as u8,
        'h' as u8,
        'a' as u8,
        'r' as u8,
        'g' as u8,
        'e' as u8,
        'b' as u8,
        'a' as u8,
        'c' as u8,
        'k' as u8,
    ];
    proof {
        assert(deposit@ =~= deposit_name());
        assert(withdrawal@ =~= withdrawal_name());
        assert(dispute@ =~= dispute_name());
        assert(resolve@ =~= resolve_name());
        assert(chargeback@ =~= chargeback_name());
    }
    if eq_ignore_case(s, &deposit) {
        Some(EventType::Deposit)
    } else if eq_ignore_case(s, &withdrawal) {
        Some(EventType::Withdrawal)
    } else if eq_ignore_case(s, &dispute) {
        Some(EventType::Dispute)
    } else if eq_ignore_case(s, &resolve) {
        Some(EventType::Resolve)
    } else if eq_ignore_case(s, &chargeback) {
        Some(EventType::Chargeback)
    } else {
        None
    }
}

/// Powers of ten are positive.
proof fn lemma_pow10_pos(n: nat)
    ensures
        pow10(n) >= 1,
    decreases n,
{
    if n > 0 {
        lemma_pow10_pos((n - 1) as nat);
    }
}

/// A string of `n` digits is worth less than the `n`-th power of ten.
proof fn lemma_dec_value_bound(s: Seq<u8>)
    requires
        all_digits(s),
    ensures
        dec_value(s) < pow10(s.len()),
    decreases s.len(),
{
    if s.len() > 0 {
        lemma_dec_value_bound(s.drop_last());
    }
}

/// The first position in `s` at or after `from` that holds `b`, or the
/// length of `s` if there is none (or if `from` is out of range).
pub open spec fn find_byte(s: Seq<u8>, from: int, b: u8) -> int
    decreases s.len() - from,
{
    if from < 0 || from >= s.len() {
        s.len() as int
    } else if s[from] == b {
        from
    } else {
        find_byte(s, from + 1, b)
    }
}

/// `find_byte` answers `j` exactly when `b` is at `j` and nowhere earlier.
proof fn lemma_find_byte_is(s: Seq<u8>, from: int, b: u8, j: int)
    requires
        0 <= from <= j <= s.len(),
        forall|k: int| from <= k < j ==> s[k] != b,
        j < s.len() ==> s[j] == b,
    ensures
        find_byte(s, from, b) == j,
    decreases j - from,
{
    if from < j {
        lemma_find_byte_is(s, from + 1, b, j);
    }
}

/// Finds the first comma at or after `from`, or the end of the slice.
fn find_comma(s: &[u8], from: usize) -> (j: usize)
    requires
        from <= s@.len(),
    ensures
        from <= j <= s@.len(),
        j == find_byte(s@, from as int, ',' as u8),
        j < s@.len() ==> s@[j as int] == ',' as u8,
        forall|k: int| from <= k < j ==> s@[k] != ',' as u8,
{
    let mut j: usize = from;
    while j < s.len()
        invariant
            from <= j <= s@.len(),
            forall|k: int| from <= k < j ==> s@[k] != ',' as u8,
        decreases s@.len() - j,
    {
        if s[j] == ',' as u8 {
            proof {
                lemma_find_byte_is(s@, from as int, ',' as u8, j as int);
            }
            return j;
        }
        j = j + 1;
    }
    proof {
        lemma_find_byte_is(s@, from as int, ',' as u8, s@.len() as int);
    }
    j
}

/// The fixed-point value of an amount written as whole units and a fraction
/// of at most four digits: the missing places are zeroes.
pub open spec fn amount_value(whole: Seq<u8>, frac: Seq<u8>) -> nat {
    dec_value(whole) * (AMOUNT_SCALE as nat) + dec_value(frac) * pow10((4 - frac.len()) as nat)
}

/// What the amount field means: a non-empty string of digits for the whole
/// units, then optionally a point and one to four fraction digits, worth
/// `whole * 10000 + fraction` minor units; it must fit in a `u64`. Anything
/// else — more fraction digits, other characters, an empty field — is
/// rejected.
pub open spec fn parse_amount_spec(s: Seq<u8>) -> Option<u64> {
    let dot = find_byte(s, 0, '.' as u8);
    if dot == s.len() {
        if s.len() > 0 && all_digits(s) && dec_value(s) * (AMOUNT_SCALE as nat) <= u64::MAX {
            Some((dec_value(s) * (AMOUNT_SCALE as nat)) as u64)
        } else {
            None
        }
    } else {
        let whole = s.subrange(0, dot);
        let frac = s.subrange(dot + 1, s.len() as int);
        if whole.len() > 0 && all_digits(whole) && 1 <= frac.len() <= 4 && all_digits(frac)
            && amount_value(whole, frac) <= u64::MAX {
            Some(amount_value(whole, frac) as u64)
        } else {
            None
        }
    }
}

/// Finds the first dot, or the end of the slice.
fn find_dot(s: &[u8]) -> (j: usize)
    ensures
        j <= s@.len(),
        j == find_byte(s@, 0, '.' as u8),
        j < s@.len() ==> s@[j as int] == '.' as u8,
{
    let mut j: usize = 0;
    while j < s.len()
        invariant
            j <= s@.len(),
            forall|k: int| 0 <= k < j ==> s@[k] != '.' as u8,
        decreases s@.len() - j,
    {
        if s[j] == '.' as u8 {
            proof {
                lemma_find_byte_is(s@, 0, '.' as u8, j as int);
            }
            return j;
        }
        j = j + 1;
    }
    proof {
        lemma_find_byte_is(s@, 0, '.' as u8, s@.len() as int);
    }
    j
}

/// Decodes an amount field into fixed-point minor units.
pub fn parse_amount(s: &[u8]) -> (result: Option<u64>)
    ensures
        result == parse_amount_spec(s@),
{
    let dot = find_dot(s);
    if dot == s.len() {
        match parse_u64(s) {
            Some(units) => {
                if units > u64::MAX / AMOUNT_SCALE {
                    proof {
                        assert(dec_value(s@) * 10000 > u64::MAX) by (nonlinear_arith)
                            requires
                                dec_value(s@) > u64::MAX / 10000,
                        ;
                    }
                    None
                } else {
                    Some(units * AMOUNT_SCALE)
                }
            },
            None => {
                proof {
                    if s@.len() > 0 && all_digits(s@) {
                        assert(dec_value(s@) > u64::MAX);
                        assert(dec_value(s@) * 10000 > u64::MAX) by (nonlinear_arith)
                            requires
                                dec_value(s@) > u64::MAX,
                        ;
                    }
                }
                None
            },
        }
    } else {
        let whole = &s[0..dot];
        let frac = &s[dot + 1..s.len()];
        if frac.len() < 1 || frac.len() > 4 {
            return None;
        }
        let whole_units = match parse_u64(whole) {
            Some(units) => units,
            None => {
                proof {
                    if whole@.len() > 0 && all_digits(whole@) {
                        assert(dec_value(whole@) > u64::MAX);
                        assert(amount_value(whole@, frac@) > u64::MAX) by (nonlinear_arith)
                            requires
                                dec_value(whole@) > u64::MAX,
                                dec_value(frac@) * pow10((4 - frac@.len()) as nat) >= 0,
                        ;
                    }
                }
                return None;
            },
        };
        let frac_units = match parse_u64(frac) {
            Some(units) => units,
            None => {
                proof {
                    if all_digits(frac@) {
                        lemma_dec_value_bound(frac@);
                        proof_pow10_small();
                    }
                }
                return None;
            },
        };
        proof {
            lemma_dec_value_bound(frac@);
            proof_pow10_small();
        }
        let scale: u64 = if frac.len() == 1 {
            1000
        } else if frac.len() == 2 {
            100
        } else if frac.len() == 3 {
            10
        } else {
            1
        };
        proof {
            assert(scale == pow10((4 - frac@.len()) as nat));
            assert(dec_value(frac@) * pow10((4 - frac@.len()) as nat) < 10000) by (nonlinear_arith)
                requires
                    dec_value(frac@) < pow10(frac@.len()),
                    1 <= frac@.len() <= 4,
                    pow10(1) == 10 && pow10(2) == 100 && pow10(3) == 1000 && pow10(4) == 10000,
                    pow10((4 - frac@.len()) as nat) == if frac@.len() == 1 {
                        1000nat
                    } else if frac@.len() == 2 {
                        100nat
                    } else if frac@.len() == 3 {
                        10nat
                    } else {
                        1nat
                    },
            ;
        }
        let tail = frac_units * scale;
        if whole_units > (u64::MAX - tail) / AMOUNT_SCALE {
            proof {
                assert(amount_value(whole@, frac@) > u64::MAX) by (nonlinear_arith)
                    requires
                        dec_value(whole@) > ((u64::MAX - (dec_value(frac@) * pow10(
                            (4 - frac@.len()) as nat,
                        ))) as nat) / 10000,
                        dec_value(frac@) * pow10((4 - frac@.len()) as nat) < 10000,
                ;
            }
            None
        } else {
            Some(whole_units * AMOUNT_SCALE + tail)
        }
    }
}

/// The first five powers of ten, written out.
proof fn proof_pow10_small()
    ensures
        pow10(0) == 1,
        pow10(1) == 10,
        pow10(2) == 100,
        pow10(3) == 1000,
        pow10(4) == 10000,
{
    reveal_with_fuel(pow10, 6);
}

/// What one record line means, or that it is malformed.
///
/// A line is `type,tx,client` or `type,tx,client,amount`: the first three
/// fields must decode, a deposit or withdrawal must carry a non-empty amount,
/// and the dispute family may carry one (or an empty fourth field), which the
/// balance table ignores. A line with fewer than three or more than four
/// fields, or any field that does not decode, is malformed.
pub open spec fn parse_record_spec(s: Seq<u8>) -> Option<Event> {
    let c1 = find_byte(s, 0, ',' as u8);
    let c2 = find_byte(s, c1 + 1, ',' as u8);
    let c3 = find_byte(s, c2 + 1, ',' as u8);
    let c4 = find_byte(s, c3 + 1, ',' as u8);
    if c1 == s.len() || c2 == s.len() || c4 != s.len() {
        None
    } else {
        let kind_field = s.subrange(0, c1);
        let tx_field = s.subrange(c1 + 1, c2);
        let client_field = s.subrange(
            c2 + 1,
            if c3 == s.len() {
                s.len() as int
            } else {
                c3
            },
        );
        match (event_type_spec(kind_field), parse_u64_spec(tx_field), parse_u64_spec(
            client_field,
        )) {
            (Some(event_type), Some(transaction_id), Some(client_id)) => {
                if c3 == s.len() || c3 + 1 == s.len() {
                    match event_type {
                        EventType::Deposit | EventType::Withdrawal => None,
                        EventType::Dispute | EventType::Resolve | EventType::Chargeback => Some(
                            Event { event_type, transaction_id, client_id, amount: None },
                        ),
                    }
                } else {
                    match parse_amount_spec(s.subrange(c3 + 1, s.len() as int)) {
                        Some(amount) => Some(
                            Event { event_type, transaction_id, client_id, amount: Some(amount) },
                        ),
                        None => None,
                    }
                }
            },
            _ => None,
        }
    }
}

/// Decodes one record line.
pub fn parse_record(s: &[u8]) -> (result: Result<Event, RecordDecodeError>)
    ensures
        match result {
            Ok(event) => parse_record_spec(s@) == Some(event),
            Err(_) => parse_record_spec(s@) == None::<Event>,
        },
{
    let c1 = find_comma(s, 0);
    if c1 == s.len() {
        return Err(RecordDecodeError);
    }
    let c2 = find_comma(s, c1 + 1);
    if c2 == s.len() {
        return Err(RecordDecodeError);
    }
    let c3 = find_comma(s, c2 + 1);
    let c4 = if c3 == s.len() {
        s.len()
    } else {
        find_comma(s, c3 + 1)
    };
    if c4 != s.len() {
        return Err(RecordDecodeError);
    }
    let event_type = match event_type_of(&s[0..c1]) {
        Some(kind) => kind,
        None => {
            return Err(RecordDecodeError);
        },
    };
    let transaction_id = match parse_u64(&s[c1 + 1..c2]) {
        Some(value) => value,
        None => {
            return Err(RecordDecodeError);
        },
    };
    let client_end = if c3 == s.len() {
        s.len()
    } else {
        c3
    };
    let client_id = match parse_u64(&s[c2 + 1..client_end]) {
        Some(value) => value,
        None => {
            return Err(RecordDecodeError);
        },
    };
    if c3 == s.len() || c3 + 1 == s.len() {
        match event_type {
            EventType::Deposit | EventType::Withdrawal => Err(RecordDecodeError),
            EventType::Dispute | EventType::Resolve | EventType::Chargeback => Ok(
                Event { event_type, transaction_id, client_id, amount: None },
            ),
        }
    } else {
        match parse_amount(&s[c3 + 1..s.len()]) {
            Some(amount) => Ok(Event { event_type, transaction_id, client_id, amount: Some(amount) }),
            None => Err(RecordDecodeError),
        }
    }
}

} // verus!
