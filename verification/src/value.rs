//! The dynamic values that expressions produce and aggregations consume.

use vstd::prelude::*;
use vstd::string::StringSliceAdditionalSpecFns;
use crate::error::CallError;
use crate::number::{
    is_float_of,
    is_formatting,
    is_parsing,
    DynamicNumber,
    Float,
    FloatArith,
};
use crate::text::{copy_bytes, integer_numeral, integer_text, numeral_value, parse_integer};

verus! {

/// A value of the expression language.
#[derive(Debug, Clone, PartialEq, Eq)]
pub enum DynamicValue {
    Integer(i64),
    Float(Float),
    String(Vec<u8>),
    Boolean(bool),
    /// The absent value.
    Null,
}

/// What a [`DynamicValue`] holds.
pub enum Value {
    Integer(i64),
    Float(Float),
    String(Seq<u8>),
    Boolean(bool),
    /// The absent value.
    Null,
}

impl View for DynamicValue {
    type V = Value;

    open spec fn view(&self) -> Value {
        match self {
            DynamicValue::Integer(value) => Value::Integer(*value),
            DynamicValue::Float(value) => Value::Float(*value),
            DynamicValue::String(bytes) => Value::String(bytes@),
            DynamicValue::Boolean(value) => Value::Boolean(*value),
            DynamicValue::Null => Value::Null,
        }
    }
}

/// What an optional value holds.
pub open spec fn optional_view(value: Option<DynamicValue>) -> Option<Value> {
    match value {
        Some(v) => Some(v@),
        None => None,
    }
}

/// The text of a binary64 value that has no decimal numeral.
pub open spec fn special_float_text(value: Float) -> Option<Seq<u8>> {
    if value.spec_is_nan() {
        Some("nan".spec_bytes())
    } else if value.spec_is_infinite() {
        if value.spec_is_negative() {
            Some("-inf".spec_bytes())
        } else {
            Some("inf".spec_bytes())
        }
    } else {
        None
    }
}

impl Value {
    /// Absent, or the empty string.
    pub open spec fn is_nullish(self) -> bool {
        match self {
            Value::Null => true,
            Value::String(bytes) => bytes.len() == 0,
            _ => false,
        }
    }

    /// Everything but: absent, `false`, the integer zero, a binary64 zero or
    /// NaN, and the empty string.
    pub open spec fn is_truthy(self) -> bool {
        match self {
            Value::Integer(value) => value != 0,
            Value::Float(value) => !value.spec_is_zero() && !value.spec_is_nan(),
            Value::String(bytes) => bytes.len() != 0,
            Value::Boolean(value) => value,
            Value::Null => false,
        }
    }

    /// The value of a given number.
    pub open spec fn of_number(number: DynamicNumber) -> Value {
        match number {
            DynamicNumber::Integer(value) => Value::Integer(value),
            DynamicNumber::Float(value) => Value::Float(value),
        }
    }

    /// The number that the value is, if it is one.
    pub open spec fn as_number(self) -> Option<DynamicNumber> {
        match self {
            Value::Integer(value) => Some(DynamicNumber::Integer(value)),
            Value::Float(value) => Some(DynamicNumber::Float(value)),
            _ => None,
        }
    }

    /// The number that the value is read as, where that needs no rounding:
    /// a number is itself and an integer numeral is its integer. A string
    /// that is no integer numeral is left to the caller's arithmetic; any
    /// other value is no number.
    pub open spec fn fixed_number(self) -> Option<Result<DynamicNumber, CallError>> {
        match self {
            Value::Integer(value) => Some(Ok(DynamicNumber::Integer(value))),
            Value::Float(value) => Some(Ok(DynamicNumber::Float(value))),
            Value::String(bytes) => match numeral_value(bytes) {
                Some(value) => Some(Ok(DynamicNumber::Integer(value))),
                None => None,
            },
            _ => Some(Err(CallError::CannotCoerceToNumber)),
        }
    }

    /// The text of the value, where that needs no rounding: a string is
    /// itself, an integer its decimal numeral, a truth value `true` or
    /// `false`, the absent value empty, a NaN `nan`, an infinity `inf` or
    /// `-inf`. The numeral of a finite binary64 value is left to the
    /// caller's arithmetic.
    pub open spec fn fixed_text(self) -> Option<Seq<u8>> {
        match self {
            Value::Integer(value) => Some(integer_numeral(value as int)),
            Value::Float(value) => special_float_text(value),
            Value::String(bytes) => Some(bytes),
            Value::Boolean(value) => Some(
                if value {
                    "true".spec_bytes()
                } else {
                    "false".spec_bytes()
                },
            ),
            Value::Null => Some(Seq::empty()),
        }
    }
}

/// Whether `text` is the text of a binary64 value, with the arithmetic that
/// writes numerals: `nan`, `inf` or `-inf`, and for a finite value the
/// numeral that the arithmetic writes.
pub open spec fn is_float_text<A: FloatArith>(arith: &A, value: Float, text: Seq<u8>) -> bool {
    match special_float_text(value) {
        Some(special) => text == special,
        None => is_formatting(arith, value, text),
    }
}

/// Whether `text` is the text of a value, with the arithmetic that writes
/// numerals.
pub open spec fn is_text_of<A: FloatArith>(arith: &A, value: Value, text: Seq<u8>) -> bool {
    match value {
        Value::Float(f) => is_float_text(arith, f, text),
        _ => value.fixed_text() == Some(text),
    }
}

/// Whether `number` is what a value reads as, with the arithmetic that
/// reads numerals. A number is itself. A string that is an integer numeral
/// is that integer; any other string is what the arithmetic reads it as, a
/// binary64 value or nothing, and nothing is an error. No other value is a
/// number.
pub open spec fn is_number_of<A: FloatArith>(
    arith: &A,
    value: Value,
    number: Result<DynamicNumber, CallError>,
) -> bool {
    match value.fixed_number() {
        Some(fixed) => number == fixed,
        None => exists|answer: Option<Float>|
            #[trigger] is_parsing(arith, value->String_0, answer) && number == match answer {
                Some(f) => Ok::<DynamicNumber, CallError>(DynamicNumber::Float(f)),
                None => Err::<DynamicNumber, CallError>(CallError::CannotCoerceToNumber),
            },
    }
}

/// The text of a binary64 value: `nan`, `inf` or `-inf`, and for a finite
/// value the numeral that the caller's arithmetic writes.
pub fn float_text<A: FloatArith>(value: Float, arith: &A) -> (r: Vec<u8>)
    ensures
        is_float_text(arith, value, r@),
{
    if value.is_nan() {
        copy_bytes("nan".as_bytes())
    } else if value.is_infinite() {
        if value.is_negative() {
            copy_bytes("-inf".as_bytes())
        } else {
            copy_bytes("inf".as_bytes())
        }
    } else {
        arith.format(value)
    }
}

impl DynamicValue {
    /// A copy of the value.
    pub fn duplicate(&self) -> (r: DynamicValue)
        ensures
            r@ == self@,
    {
        match self {
            DynamicValue::Integer(value) => DynamicValue::Integer(*value),
            DynamicValue::Float(value) => DynamicValue::Float(*value),
            DynamicValue::String(bytes) => DynamicValue::String(copy_bytes(bytes.as_slice())),
            DynamicValue::Boolean(value) => DynamicValue::Boolean(*value),
            DynamicValue::Null => DynamicValue::Null,
        }
    }

    pub fn from_bool(value: bool) -> (r: DynamicValue)
        ensures
            r@ == Value::Boolean(value),
    {
        DynamicValue::Boolean(value)
    }

    /// The value of a count of rows or of keys.
    pub fn from_count(count: usize) -> (r: DynamicValue)
        requires
            count <= i64::MAX,
        ensures
            r@ == Value::Integer(count as i64),
    {
        DynamicValue::Integer(count as i64)
    }

    pub fn from_number(number: DynamicNumber) -> (r: DynamicValue)
        ensures
            r@ == Value::of_number(number),
    {
        match number {
            DynamicNumber::Integer(value) => DynamicValue::Integer(value),
            DynamicNumber::Float(value) => DynamicValue::Float(value),
        }
    }

    pub fn from_bytes(bytes: Vec<u8>) -> (r: DynamicValue)
        ensures
            r@ == Value::String(bytes@),
    {
        DynamicValue::String(bytes)
    }

    /// The number, or the absent value where there is none.
    pub fn from_optional_number(number: Option<DynamicNumber>) -> (r: DynamicValue)
        ensures
            r@ == match number {
                Some(n) => Value::of_number(n),
                None => Value::Null,
            },
    {
        match number {
            Some(n) => DynamicValue::from_number(n),
            None => DynamicValue::Null,
        }
    }

    /// The binary64 value, or the absent value where there is none.
    pub fn from_optional_float(value: Option<Float>) -> (r: DynamicValue)
        ensures
            r@ == match value {
                Some(f) => Value::Float(f),
                None => Value::Null,
            },
    {
        match value {
            Some(f) => DynamicValue::Float(f),
            None => DynamicValue::Null,
        }
    }

    /// The string, or the absent value where there is none.
    pub fn from_optional_bytes(bytes: Option<Vec<u8>>) -> (r: DynamicValue)
        ensures
            r@ == match bytes {
                Some(b) => Value::String(b@),
                None => Value::Null,
            },
    {
        match bytes {
            Some(b) => DynamicValue::String(b),
            None => DynamicValue::Null,
        }
    }

    /// The value itself, or the absent value where there is none.
    pub fn from_optional(value: Option<DynamicValue>) -> (r: DynamicValue)
        ensures
            r@ == match value {
                Some(v) => v@,
                None => Value::Null,
            },
    {
        match value {
            Some(v) => v,
            None => DynamicValue::Null,
        }
    }

    pub fn is_nullish(&self) -> (r: bool)
        ensures
            r == self@.is_nullish(),
    {
        match self {
            DynamicValue::Null => true,
            DynamicValue::String(bytes) => bytes.len() == 0,
            _ => false,
        }
    }

    pub fn is_truthy(&self) -> (r: bool)
        ensures
            r == self@.is_truthy(),
    {
        match self {
            DynamicValue::Integer(value) => *value != 0,
            DynamicValue::Float(value) => !value.is_zero() && !value.is_nan(),
            DynamicValue::String(bytes) => bytes.len() != 0,
            DynamicValue::Boolean(value) => *value,
            DynamicValue::Null => false,
        }
    }

    /// Reads the value as a number. A number is itself. A string is read as
    /// an integer numeral where it is one, and else handed to the caller's
    /// arithmetic, which answers with a binary64 value or with none. Nothing
    /// else is a number.
    pub fn try_as_number<A: FloatArith>(&self, arith: &A) -> (r: Result<DynamicNumber, CallError>)
        ensures
            is_number_of(arith, self@, r),
            self@.fixed_number() matches Some(fixed) ==> r == fixed,
            self@.fixed_number() is None ==> r matches Ok(DynamicNumber::Float(_)) || r == Err::<
                DynamicNumber,
                CallError,
            >(CallError::CannotCoerceToNumber),
    {
        match self {
            DynamicValue::Integer(value) => Ok(DynamicNumber::Integer(*value)),
            DynamicValue::Float(value) => Ok(DynamicNumber::Float(*value)),
            DynamicValue::String(bytes) => match parse_integer(bytes.as_slice()) {
                Some(value) => Ok(DynamicNumber::Integer(value)),
                None => {
                    let source = bytes.as_slice();
                    let answer = arith.parse(source);
                    assert(is_parsing(arith, bytes@, answer)) by {
                        assert(source@ == bytes@ && call_ensures(A::parse, (arith, source), answer));
                    }
                    match answer {
                        Some(value) => Ok(DynamicNumber::Float(value)),
                        None => Err(CallError::CannotCoerceToNumber),
                    }
                },
            },
            _ => Err(CallError::CannotCoerceToNumber),
        }
    }

    /// Reads the value as a binary64 value: as a number, an integer then
    /// rounded by the caller's arithmetic.
    pub fn try_as_float<A: FloatArith>(&self, arith: &A) -> (r: Result<Float, CallError>)
        ensures
            exists|number: Result<DynamicNumber, CallError>|
                #[trigger] is_number_of(arith, self@, number) && match number {
                    Ok(n) => r matches Ok(f) && is_float_of(arith, n, f),
                    Err(e) => r == Err::<Float, CallError>(e),
                },
            match self@.fixed_number() {
                Some(Ok(DynamicNumber::Float(value))) => r == Ok::<Float, CallError>(value),
                Some(Ok(DynamicNumber::Integer(_))) => r is Ok,
                Some(Err(e)) => r == Err::<Float, CallError>(e),
                None => r is Ok || r == Err::<Float, CallError>(CallError::CannotCoerceToNumber),
            },
    {
        let number = self.try_as_number(arith);
        assert(is_number_of(arith, self@, number));
        match number {
            Ok(number) => Ok(number.to_float(arith)),
            Err(e) => Err(e),
        }
    }

    /// The text of the value. Every value of this model has one.
    pub fn try_as_str<A: FloatArith>(&self, arith: &A) -> (r: Result<Vec<u8>, CallError>)
        ensures
            r is Ok,
            is_text_of(arith, self@, r.unwrap()@),
            self@.fixed_text() matches Some(text) ==> r.unwrap()@ == text,
    {
        Ok(self.serialize_as_bytes(arith))
    }

    /// The bytes that stand for the value in an output record.
    pub fn serialize_as_bytes<A: FloatArith>(&self, arith: &A) -> (r: Vec<u8>)
        ensures
            is_text_of(arith, self@, r@),
            self@.fixed_text() matches Some(text) ==> r@ == text,
    {
        match self {
            DynamicValue::Integer(value) => integer_text(*value),
            DynamicValue::Float(value) => float_text(*value, arith),
            DynamicValue::String(bytes) => copy_bytes(bytes.as_slice()),
            DynamicValue::Boolean(value) => {
                if *value {
                    copy_bytes("true".as_bytes())
                } else {
                    copy_bytes("false".as_bytes())
                }
            },
            DynamicValue::Null => Vec::new(),
        }
    }
}

} // verus!
