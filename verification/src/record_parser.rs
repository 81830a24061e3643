//! From rows of text fields to transaction records.
//!
//! A row has the fields `type, client, tx` and, optionally, `amount`. A row
//! that does not read as a record is dropped.

use crate::amount::{decimal_text_value, Amount};
use crate::records::{Record, TransactionRecord, TransactionType};
use vstd::prelude::*;
use vstd::string::StringSliceAdditionalSpecFns;

verus! {

/// Whether a byte is an ASCII digit.
pub open spec fn is_digit(byte: u8) -> bool {
    48 <= byte <= 57
}

/// Whether every byte is an ASCII digit.
pub open spec fn all_digits(text: Seq<u8>) -> bool {
    forall|i: int| 0 <= i < text.len() ==> is_digit(#[trigger] text[i])
}

/// The number that a sequence of ASCII digits writes in base ten.
pub open spec fn digits_value(digits: Seq<u8>) -> nat
    decreases digits.len(),
{
    if digits.len() == 0 {
        0
    } else {
        digits_value(digits.drop_last()) * 10 + (digits.last() - 48) as nat
    }
}

/// The text without a leading plus sign.
pub open spec fn unsigned_part(text: Seq<u8>) -> Seq<u8> {
    if text.len() > 0 && text[0] == 43 {
        text.drop_first()
    } else {
        text
    }
}

/// The unsigned decimal number that a text writes, if it writes one that is
/// at most `max`: an optional plus sign, then one or more digits.
pub open spec fn number_of(text: Seq<u8>, max: nat) -> Option<nat> {
    let digits = unsigned_part(text);
    if digits.len() > 0 && all_digits(digits) && digits_value(digits) <= max {
        Some(digits_value(digits))
    } else {
        None
    }
}

/// The transaction type that a text names, if it names one. The names are
/// case-sensitive.
pub open spec fn type_of(text: Seq<u8>) -> Option<TransactionType> {
    if text == "deposit".spec_bytes() {
        Some(TransactionType::Deposit)
    } else if text == "withdrawal".spec_bytes() {
        Some(TransactionType::Withdrawal)
    } else if text == "dispute".spec_bytes() {
        Some(TransactionType::Dispute)
    } else if text == "resolve".spec_bytes() {
        Some(TransactionType::Resolve)
    } else if text == "chargeback".spec_bytes() {
        Some(TransactionType::ChargeBack)
    } else {
        None
    }
}

/// The record that a row of fields writes, given what the decimal parser
/// makes of its amount field. `None` where a field is missing or malformed;
/// an amount that is absent or empty is no error.
pub open spec fn record_of(fields: Seq<Seq<u8>>) -> Option<Record> {
    if fields.len() < 3 {
        None
    } else {
        let has_amount = fields.len() >= 4 && fields[3].len() > 0;
        let amount = Amount::parsed(decimal_text_value(fields[3]));
        match (type_of(fields[0]), number_of(fields[1], 0xffff), number_of(fields[2], 0xffff_ffff)) {
            (Some(tr_type), Some(client), Some(tx)) => if has_amount && amount is None {
                None
            } else {
                Some(
                    Record {
                        tr_type,
                        client: client as u16,
                        tx: tx as u32,
                        amount: if has_amount {
                            amount
                        } else {
                            None
                        },
                    },
                )
            },
            _ => None,
        }
    }
}

/// The records that a sequence of rows writes: each row that reads as a
/// record, in the order of the rows.
pub open spec fn records_of_rows(rows: Seq<Seq<Seq<u8>>>) -> Seq<Record> {
    rows.filter_map(|fields: Seq<Seq<u8>>| record_of(fields))
}

/// The fields of a row as sequences of bytes.
pub open spec fn fields_of(row: Seq<Vec<u8>>) -> Seq<Seq<u8>> {
    Seq::new(row.len(), |i: int| row[i]@)
}

/// Rows as sequences of fields of bytes.
pub open spec fn rows_of(rows: Seq<Vec<Vec<u8>>>) -> Seq<Seq<Seq<u8>>> {
    Seq::new(rows.len(), |i: int| fields_of(rows[i]@))
}

/// A number does not shrink when digits are appended.
pub proof fn lemma_digits_grow(digits: Seq<u8>, n: int)
    requires
        all_digits(digits),
        0 <= n <= digits.len(),
    ensures
        digits_value(digits.take(n)) <= digits_value(digits),
    decreases digits.len() - n,
{
    if n < digits.len() {
        lemma_digits_grow(digits, n + 1);
        assert(digits.take(n + 1).drop_last() =~= digits.take(n));
        assert(is_digit(digits[n]));
    } else {
        assert(digits.take(n) =~= digits);
    }
}

/// Whether two byte strings are equal.
pub fn bytes_equal(left: &[u8], right: &[u8]) -> (equal: bool)
    ensures
        equal == (left@ == right@),
{
    if left.len() != right.len() {
        return false;
    }
    let mut i: usize = 0;
    while i < left.len()
        invariant
            i <= left.len(),
            left.len() == right.len(),
            forall|j: int| 0 <= j < i ==> left@[j] == right@[j],
        decreases left.len() - i,
    {
        if left[i] != right[i] {
            return false;
        }
        i += 1;
    }
    assert(left@ =~= right@);
    true
}

/// Reads the name of a transaction type.
pub fn parse_type(text: &[u8]) -> (tr_type: Option<TransactionType>)
    ensures
        tr_type == type_of(text@),
{
    if bytes_equal(text, "deposit".as_bytes()) {
        Some(TransactionType::Deposit)
    } else if bytes_equal(text, "withdrawal".as_bytes()) {
        Some(TransactionType::Withdrawal)
    } else if bytes_equal(text, "dispute".as_bytes()) {
        Some(TransactionType::Dispute)
    } else if bytes_equal(text, "resolve".as_bytes()) {
        Some(TransactionType::Resolve)
    } else if bytes_equal(text, "chargeback".as_bytes()) {
        Some(TransactionType::ChargeBack)
    } else {
        None
    }
}

/// Reads an unsigned decimal number that is at most `max`.
pub fn parse_number(text: &[u8], max: u32) -> (number: Option<u32>)
    ensures
        match number {
            Some(n) => number_of(text@, max as nat) == Some(n as nat),
            None => number_of(text@, max as nat) is None,
        },
{
    let start: usize = if text.len() > 0 && text[0] == 43 {
        1
    } else {
        0
    };
    let ghost digits = unsigned_part(text@);
    assert(digits =~= text@.subrange(start as int, text.len() as int));
    if start == text.len() {
        return None;
    }
    let mut value: u64 = 0;
    let mut i: usize = start;
    while i < text.len()
        invariant
            start <= i <= text.len(),
            digits == text@.subrange(start as int, text.len() as int),
            digits == unsigned_part(text@),
            all_digits(digits.take(i - start)),
            value == digits_value(digits.take(i - start)),
            value <= max,
        decreases text.len() - i,
    {
        let byte = text[i];
        proof {
            assert(digits[i - start] == byte);
            assert(digits.take(i - start + 1).drop_last() =~= digits.take(i - start));
        }
        if byte < 48 || byte > 57 {
            assert(!is_digit(digits[i - start]));
            return None;
        }
        value = value * 10 + (byte - 48) as u64;
        if value > max as u64 {
            proof {
                if all_digits(digits) {
                    lemma_digits_grow(digits, i - start + 1);
                }
            }
            return None;
        }
        i += 1;
    }
    assert(digits.take(i - start) =~= digits);
    Some(value as u32)
}

/// Reads one row. `None` where the row does not read as a record.
pub fn parse_record(fields: &Vec<Vec<u8>>) -> (record: Option<TransactionRecord>)
    ensures
        match record {
            Some(r) => record_of(fields_of(fields@)) == Some(r@),
            None => record_of(fields_of(fields@)) is None,
        },
{
    if fields.len() < 3 {
        return None;
    }
    let tr_type = match parse_type(fields[0].as_slice()) {
        Some(tr_type) => tr_type,
        None => { return None; },
    };
    let client = match parse_number(fields[1].as_slice(), 0xffff) {
        Some(client) => client as u16,
        None => { return None; },
    };
    let tx = match parse_number(fields[2].as_slice(), 0xffff_ffff) {
        Some(tx) => tx,
        None => { return None; },
    };
    if fields.len() >= 4 && fields[3].len() > 0 {
        match Amount::parse(fields[3].as_slice()) {
            Some(amount) => Some(TransactionRecord::new(tr_type, client, tx, Some(amount))),
            None => None,
        }
    } else {
        Some(TransactionRecord::new(tr_type, client, tx, None))
    }
}

/// Reads every row and keeps the records, in the order of the rows.
pub fn parse_rows(rows: &Vec<Vec<Vec<u8>>>) -> (records: Vec<TransactionRecord>)
    ensures
        crate::account_manager::records_of(records@) == records_of_rows(rows_of(rows@)),
{
    let ghost all = rows_of(rows@);
    let ghost read = |fields: Seq<Seq<u8>>| record_of(fields);
    let mut records: Vec<TransactionRecord> = Vec::new();
    let mut i: usize = 0;
    while i < rows.len()
        invariant
            i <= rows.len(),
            all == rows_of(rows@),
            read == |fields: Seq<Seq<u8>>| record_of(fields),
            crate::account_manager::records_of(records@) == all.take(i as int).filter_map(read),
        decreases rows.len() - i,
    {
        proof {
            all.lemma_filter_map_take_succ(read, i as int);
        }
        let ghost before = records@;
        match parse_record(&rows[i]) {
            Some(record) => {
                records.push(record);
                assert(crate::account_manager::records_of(records@)
                    =~= crate::account_manager::records_of(before) + seq![record@]);
            },
            None => {
                assert(crate::account_manager::records_of(before) + Seq::<Record>::empty()
                    =~= crate::account_manager::records_of(before));
            },
        }
        i += 1;
    }
    assert(all.take(i as int) =~= all);
    records
}

} // verus!
