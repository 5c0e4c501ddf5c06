//! The key of a group: the values of the group columns, framed so that
//! different values never give the same key.

use vstd::prelude::*;
use csv::ByteRecord;
use crate::parser::{run_end, write_bytes, ByteClass};
use crate::record::{record_fields, record_get};
use crate::round_trip::{lemma_decimal_digits, lemma_run_is};
use crate::text::{decimal_digits, digits_value, is_digit, push_decimal};

verus! {

/// The byte between the length of a field and the field.
pub const COLON: u8 = 58;

/// A field behind its length in decimal digits and a colon.
pub open spec fn framed(field: Seq<u8>) -> Seq<u8> {
    decimal_digits(field.len()) + seq![COLON] + field
}

/// The key of the given values: the values framed, one after the other.
pub open spec fn key_of(values: Seq<Seq<u8>>) -> Seq<u8>
    decreases values.len(),
{
    if values.len() == 0 {
        Seq::empty()
    } else {
        framed(values[0]) + key_of(values.skip(1))
    }
}

/// The fields of a record at the given columns, in the order of the
/// columns, or nothing where the record lacks one of them.
pub open spec fn selected(fields: Seq<Seq<u8>>, columns: Seq<usize>) -> Option<Seq<Seq<u8>>>
    decreases columns.len(),
{
    if columns.len() == 0 {
        Some(Seq::empty())
    } else if columns[0] >= fields.len() {
        None
    } else {
        match selected(fields, columns.skip(1)) {
            Some(rest) => Some(seq![fields[columns[0] as int]] + rest),
            None => None,
        }
    }
}

/// The key of the values that a record holds in the group columns, or
/// nothing where the record lacks one of the columns.
pub fn group_key(record: &ByteRecord, columns: &Vec<usize>) -> (r: Option<Vec<u8>>)
    ensures
        match selected(record_fields(*record), columns@) {
            Some(values) => r matches Some(key) && key@ == key_of(values),
            None => r is None,
        },
{
    let ghost fields = record_fields(*record);
    let mut key: Vec<u8> = Vec::new();
    let mut i: usize = 0;
    proof {
        assert(columns@.skip(0) =~= columns@);
        match selected(fields, columns@) {
            Some(values) => {
                assert(key@ + key_of(values) =~= key_of(values));
            },
            None => {},
        }
    }
    while i < columns.len()
        invariant
            i <= columns@.len(),
            fields == record_fields(*record),
            match selected(fields, columns@) {
                Some(values) => selected(fields, columns@.skip(i as int)) matches Some(rest)
                    && key_of(values) == key@ + key_of(rest),
                None => selected(fields, columns@.skip(i as int)) is None,
            },
        decreases columns@.len() - i,
    {
        let ghost held = key@;
        let ghost pending = columns@.skip(i as int);
        proof {
            assert(pending[0] == columns@[i as int]);
            assert(pending.skip(1) =~= columns@.skip(i + 1));
        }
        match record_get(record, columns[i]) {
            Some(field) => {
                push_decimal(&mut key, field.len() as u64);
                key.push(COLON);
                write_bytes(field, &mut key);
                proof {
                    match selected(fields, columns@.skip(i + 1)) {
                        Some(rest) => {
                            let values = seq![field@] + rest;
                            assert(values[0] == field@);
                            assert(values.skip(1) =~= rest);
                            assert(held + (framed(field@) + key_of(rest)) =~= key@ + key_of(rest));
                        },
                        None => {},
                    }
                }
            },
            None => {
                return None;
            },
        }
        i += 1;
    }
    proof {
        assert(columns@.skip(i as int) =~= Seq::<usize>::empty());
        match selected(fields, columns@) {
            Some(values) => {
                assert(key@ + Seq::<u8>::empty() =~= key@);
            },
            None => {},
        }
    }
    Some(key)
}

/// A key that starts with a framed field gives the field away: the digits
/// before the first colon say how long it is.
pub proof fn lemma_frame_is_read(field: Seq<u8>, rest: Seq<u8>)
    ensures
        run_end(framed(field) + rest, 0, ByteClass::Digit) == decimal_digits(field.len()).len(),
{
    let digits = decimal_digits(field.len());
    let key = framed(field) + rest;
    lemma_decimal_digits(field.len());
    assert forall|i: int| 0 <= i < digits.len() implies ByteClass::Digit.spec_holds(
        #[trigger] key[i],
    ) by {
        assert(key[i] == digits[i]);
        assert(is_digit(digits[i]));
    }
    assert(key[digits.len() as int] == COLON);
    lemma_run_is(key, 0, digits.len() as int, ByteClass::Digit);
}

/// Different values have different keys: values that have the same key are
/// the same values.
pub proof fn lemma_key_tells_values_apart(a: Seq<Seq<u8>>, b: Seq<Seq<u8>>)
    requires
        key_of(a) == key_of(b),
    ensures
        a == b,
    decreases a.len(),
{
    if a.len() == 0 {
        if b.len() > 0 {
            lemma_decimal_digits(b[0].len());
            assert(key_of(b).len() > 0);
        }
        assert(a =~= b);
    } else {
        lemma_decimal_digits(a[0].len());
        assert(key_of(a).len() > 0);
        assert(b.len() > 0);
        lemma_decimal_digits(b[0].len());
        let key = key_of(a);
        let rest_a = key_of(a.skip(1));
        let rest_b = key_of(b.skip(1));
        let digits_a = decimal_digits(a[0].len());
        let digits_b = decimal_digits(b[0].len());
        lemma_frame_is_read(a[0], rest_a);
        lemma_frame_is_read(b[0], rest_b);
        assert(digits_a.len() == digits_b.len());
        assert(digits_a =~= key.subrange(0, digits_a.len() as int));
        assert(digits_b =~= key.subrange(0, digits_b.len() as int));
        assert(digits_value(digits_a) == a[0].len());
        assert(digits_value(digits_b) == b[0].len());
        let start = digits_a.len() + 1;
        let end = start + a[0].len();
        assert(a[0] =~= key.subrange(start as int, end as int));
        assert(b[0] =~= key.subrange(start as int, end as int));
        assert(rest_a =~= key.skip(end as int));
        assert(rest_b =~= key.skip(end as int));
        lemma_key_tells_values_apart(a.skip(1), b.skip(1));
        assert(a =~= seq![a[0]] + a.skip(1));
        assert(b =~= seq![b[0]] + b.skip(1));
    }
}

} // verus!
