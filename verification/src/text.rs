//! Byte strings: equality, lexicographic order, decimal integers.

use vstd::prelude::*;
use vstd::slice::slice_to_vec;
use crate::number::{comparison_of, Comparison};

verus! {

/// The ASCII code of the digit zero.
pub const DIGIT_ZERO: u8 = 48;

/// The ASCII code of the digit nine.
pub const DIGIT_NINE: u8 = 57;

/// The ASCII code of the minus sign.
pub const MINUS: u8 = 45;

/// The ASCII code of the plus sign.
pub const PLUS: u8 = 43;

/// An owned copy of a byte string.
pub fn copy_bytes(bytes: &[u8]) -> (r: Vec<u8>)
    ensures
        r@ == bytes@,
{
    slice_to_vec(bytes)
}

/// Whether two byte strings hold the same bytes.
pub fn bytes_eq(a: &[u8], b: &[u8]) -> (r: bool)
    ensures
        r == (a@ == b@),
{
    if a.len() != b.len() {
        return false;
    }
    let mut i: usize = 0;
    while i < a.len()
        invariant
            i <= a.len(),
            a.len() == b.len(),
            forall|j: int| 0 <= j < i ==> a@[j] == b@[j],
        decreases a.len() - i,
    {
        if a[i] != b[i] {
            return false;
        }
        i += 1;
    }
    assert(a@ =~= b@);
    true
}

/// The lexicographic comparison of two byte strings: the first position at
/// which they differ decides, and a proper prefix comes first.
pub open spec fn lex_comparison(a: Seq<u8>, b: Seq<u8>) -> Comparison
    decreases a.len(),
{
    if a.len() == 0 {
        if b.len() == 0 {
            Comparison::Equal
        } else {
            Comparison::Less
        }
    } else if b.len() == 0 {
        Comparison::Greater
    } else if a[0] != b[0] {
        comparison_of(a[0] as int, b[0] as int)
    } else {
        lex_comparison(a.skip(1), b.skip(1))
    }
}

/// Two byte strings compare equal exactly when they are the same.
pub proof fn lemma_lex_equal(a: Seq<u8>, b: Seq<u8>)
    ensures
        lex_comparison(a, b) == Comparison::Equal <==> a == b,
    decreases a.len(),
{
    if a.len() == 0 || b.len() == 0 {
        assert(a.len() == 0 && b.len() == 0 ==> a =~= b);
    } else if a[0] == b[0] {
        lemma_lex_equal(a.skip(1), b.skip(1));
        if a.skip(1) == b.skip(1) {
            assert(a =~= seq![a[0]] + a.skip(1));
            assert(b =~= seq![b[0]] + b.skip(1));
        }
    }
}

/// Exchanging the two sides flips the comparison.
pub proof fn lemma_lex_flip(a: Seq<u8>, b: Seq<u8>)
    ensures
        lex_comparison(b, a) == lex_comparison(a, b).flipped(),
    decreases a.len(),
{
    if a.len() > 0 && b.len() > 0 && a[0] == b[0] {
        lemma_lex_flip(a.skip(1), b.skip(1));
    }
}

/// Lexicographic order is transitive.
pub proof fn lemma_lex_transitive(a: Seq<u8>, b: Seq<u8>, c: Seq<u8>)
    requires
        lex_comparison(a, b) != Comparison::Greater,
        lex_comparison(b, c) != Comparison::Greater,
    ensures
        lex_comparison(a, c) != Comparison::Greater,
        lex_comparison(a, b) == Comparison::Less || lex_comparison(b, c) == Comparison::Less
            ==> lex_comparison(a, c) == Comparison::Less,
    decreases a.len(),
{
    if a.len() > 0 && b.len() > 0 && c.len() > 0 && a[0] == b[0] && b[0] == c[0] {
        lemma_lex_transitive(a.skip(1), b.skip(1), c.skip(1));
    }
}

/// Compares two byte strings lexicographically.
pub fn lex_compare(a: &[u8], b: &[u8]) -> (r: Comparison)
    ensures
        r == lex_comparison(a@, b@),
{
    let mut i: usize = 0;
    proof {
        assert(a@.skip(0) =~= a@);
        assert(b@.skip(0) =~= b@);
    }
    while i < a.len() && i < b.len()
        invariant
            i <= a.len(),
            i <= b.len(),
            lex_comparison(a@, b@) == lex_comparison(a@.skip(i as int), b@.skip(i as int)),
        decreases a.len() - i,
    {
        let x = a[i];
        let y = b[i];
        proof {
            assert(a@.skip(i as int)[0] == x);
            assert(b@.skip(i as int)[0] == y);
            assert(a@.skip(i as int).skip(1) =~= a@.skip(i + 1));
            assert(b@.skip(i as int).skip(1) =~= b@.skip(i + 1));
        }
        if x < y {
            return Comparison::Less;
        }
        if x > y {
            return Comparison::Greater;
        }
        i += 1;
    }
    proof {
        assert(a@.skip(i as int).len() == a@.len() - i);
        assert(b@.skip(i as int).len() == b@.len() - i);
    }
    if i < b.len() {
        Comparison::Less
    } else if i < a.len() {
        Comparison::Greater
    } else {
        Comparison::Equal
    }
}

/// Whether a byte is an ASCII decimal digit.
pub open spec fn is_digit(byte: u8) -> bool {
    DIGIT_ZERO <= byte <= DIGIT_NINE
}

/// The decimal digits of a natural number, without leading zeros.
pub open spec fn decimal_digits(n: nat) -> Seq<u8>
    decreases n,
{
    if n < 10 {
        seq![(DIGIT_ZERO + n) as u8]
    } else {
        decimal_digits(n / 10).push((DIGIT_ZERO + n % 10) as u8)
    }
}

/// The decimal numeral of an integer: a minus sign where it is negative,
/// then the digits of its absolute value.
pub open spec fn integer_numeral(value: int) -> Seq<u8> {
    if value < 0 {
        seq![MINUS] + decimal_digits((-value) as nat)
    } else {
        decimal_digits(value as nat)
    }
}

/// Appends the decimal digits of a number.
pub fn push_decimal(out: &mut Vec<u8>, n: u64)
    ensures
        final(out)@ == old(out)@ + decimal_digits(n as nat),
    decreases n,
{
    if n >= 10 {
        push_decimal(out, n / 10);
    }
    out.push(DIGIT_ZERO + (n % 10) as u8);
    assert(final(out)@ =~= old(out)@ + decimal_digits(n as nat));
}

/// Writes an integer as its decimal numeral.
pub fn integer_text(value: i64) -> (r: Vec<u8>)
    ensures
        r@ == integer_numeral(value as int),
{
    let mut out: Vec<u8> = Vec::new();
    if value < 0 {
        out.push(MINUS);
        let distance: u64 = (-(value + 1)) as u64 + 1;
        push_decimal(&mut out, distance);
    } else {
        push_decimal(&mut out, value as u64);
    }
    assert(out@ =~= integer_numeral(value as int));
    out
}

/// The number that a string of decimal digits denotes.
pub open spec fn digits_value(digits: Seq<u8>) -> nat
    decreases digits.len(),
{
    if digits.len() == 0 {
        0
    } else {
        digits_value(digits.drop_last()) * 10 + (digits.last() - DIGIT_ZERO) as nat
    }
}

/// Every byte is a decimal digit.
pub open spec fn all_digits(digits: Seq<u8>) -> bool {
    forall|i: int| 0 <= i < digits.len() ==> is_digit(#[trigger] digits[i])
}

/// The integer that a numeral denotes: an optional sign, then at least one
/// digit and nothing else, the whole within the range of a machine integer.
pub open spec fn numeral_value(text: Seq<u8>) -> Option<i64> {
    if text.len() == 0 {
        None
    } else {
        let signed = text[0] == MINUS || text[0] == PLUS;
        let digits = if signed {
            text.skip(1)
        } else {
            text
        };
        let value = if text[0] == MINUS {
            -(digits_value(digits) as int)
        } else {
            digits_value(digits) as int
        };
        if digits.len() == 0 || !all_digits(digits) || value < i64::MIN || value > i64::MAX {
            None
        } else {
            Some(value as i64)
        }
    }
}

/// Reads a decimal numeral.
pub fn parse_integer(text: &[u8]) -> (r: Option<i64>)
    ensures
        r == numeral_value(text@),
{
    if text.len() == 0 {
        return None;
    }
    let negative = text[0] == MINUS;
    let start: usize = if text[0] == MINUS || text[0] == PLUS {
        1
    } else {
        0
    };
    if start == text.len() {
        return None;
    }
    let ghost digits = text@.skip(start as int);
    proof {
        assert(text@.skip(0) =~= text@);
        assert(digits.take(0) =~= Seq::<u8>::empty());
    }
    // The largest magnitude of a machine integer is 2^63, that of the least one.
    let limit: u64 = 0x8000_0000_0000_0000;
    let mut total: u64 = 0;
    let mut overflow = false;
    let mut i: usize = start;
    while i < text.len()
        invariant
            start <= i <= text.len(),
            start < text.len(),
            start == (if text@[0] == MINUS || text@[0] == PLUS {
                1int
            } else {
                0int
            }),
            digits == text@.skip(start as int),
            start == 0 ==> digits == text@,
            limit == 0x8000_0000_0000_0000,
            all_digits(digits.take(i - start)),
            !overflow ==> total == digits_value(digits.take(i - start)) && total <= limit,
            overflow ==> digits_value(digits.take(i - start)) > limit,
        decreases text.len() - i,
    {
        let byte = text[i];
        let ghost before = digits.take(i - start);
        let ghost after = digits.take(i + 1 - start);
        proof {
            assert(after.drop_last() =~= before);
            assert(after.last() == byte);
        }
        if byte < DIGIT_ZERO || byte > DIGIT_NINE {
            proof {
                assert(digits[i - start] == byte);
                assert(!all_digits(digits));
            }
            return None;
        }
        let digit = (byte - DIGIT_ZERO) as u64;
        if !overflow {
            if total > (limit - digit) / 10 {
                overflow = true;
            } else {
                total = total * 10 + digit;
            }
        }
        proof {
            assert forall|j: int| 0 <= j < after.len() implies is_digit(#[trigger] after[j]) by {
                if j < before.len() {
                    assert(after[j] == before[j]);
                }
            }
        }
        i += 1;
    }
    proof {
        assert(digits.take(i - start) =~= digits);
    }
    if overflow {
        None
    } else if negative {
        if total == limit {
            Some(i64::MIN)
        } else {
            Some(-(total as i64))
        }
    } else if total == limit {
        None
    } else {
        Some(total as i64)
    }
}

} // verus!
