//! The atom behind the medians: it collects numbers and sorts them.

use vstd::prelude::*;
use vstd::arithmetic::power2::{lemma_pow2_pos, lemma_pow2_unfold, pow2};
use crate::number::{
    exact_half,
    integer_key,
    is_exact_half,
    is_float_of,
    is_quotient,
    is_sum,
    DynamicNumber,
    Float,
    FloatArith,
    EXACT_LIMIT,
    TWO_BITS,
};
use crate::sorting::{keeps_ties, lemma_sorted_is_unique, ordered, sort_numbers};

verus! {

/// Which of the two middle numbers of an even count is the median.
#[derive(Debug, Clone, Copy, PartialEq, Eq, Structural)]
pub enum MedianType {
    /// Their mean, as a binary64 value.
    Interpolation,
    /// The lower one.
    Low,
    /// The higher one.
    High,
}

/// The position of the low median among `count` sorted numbers.
pub open spec fn low_position(count: int) -> int {
    if count % 2 == 0 {
        count / 2 - 1
    } else {
        count / 2
    }
}

/// Whether `mean` is the mean of two numbers as a binary64 value. The mean
/// of two integers whose sum has less than 53 bits is exactly half their
/// sum. Every other mean takes rounding, which is the caller's
/// arithmetic's.
pub open spec fn is_midpoint(down: DynamicNumber, up: DynamicNumber, mean: DynamicNumber) -> bool {
    &&& mean is Float
    &&& match (down, up) {
        (DynamicNumber::Integer(a), DynamicNumber::Integer(b)) => -EXACT_LIMIT < a + b
            < EXACT_LIMIT ==> is_exact_half(mean->Float_0, a + b),
        _ => true,
    }
}

/// Whether the two numbers are integers whose sum has less than 53 bits.
pub open spec fn halves_exactly(down: DynamicNumber, up: DynamicNumber) -> bool {
    down matches DynamicNumber::Integer(a) && up matches DynamicNumber::Integer(b) && -EXACT_LIMIT
        < a + b < EXACT_LIMIT
}

/// Whether `mean` is the mean of two numbers as a binary64 value, with the
/// arithmetic that rounds. Where the two are halved exactly the mean is
/// exactly half their sum. Else both are taken as binary64 values, an
/// integer as the arithmetic rounds it, and the mean is what the
/// arithmetic answers to their sum divided by two.
pub open spec fn is_midpoint_with<A: FloatArith>(
    arith: &A,
    down: DynamicNumber,
    up: DynamicNumber,
    mean: DynamicNumber,
) -> bool {
    &&& is_midpoint(down, up, mean)
    &&& !halves_exactly(down, up) ==> exists|left: Float, right: Float, total: Float|
        {
            &&& is_float_of(arith, down, left)
            &&& is_float_of(arith, up, right)
            &&& #[trigger] is_sum(arith, left, right, total)
            &&& is_quotient(arith, total, Float { bits: TWO_BITS }, mean->Float_0)
        }
}

/// Whether `result` is the median of `numbers`, read as sorted, with the
/// arithmetic that rounds the mean of the two middle numbers of an even
/// count.
pub open spec fn is_median_with<A: FloatArith>(
    arith: &A,
    numbers: Seq<DynamicNumber>,
    median_type: MedianType,
    result: Option<DynamicNumber>,
) -> bool {
    let count = numbers.len() as int;
    &&& is_median(numbers, median_type, result)
    &&& (count > 0 && count % 2 == 0 && median_type is Interpolation) ==> is_midpoint_with(
        arith,
        numbers[count / 2 - 1],
        numbers[count / 2],
        result->0,
    )
}

/// Whether `result` is the median of `numbers`, read as sorted. There is
/// none of no numbers. The low and the high median are the numbers at the
/// low and at the high middle position. The interpolated median of an odd
/// count is the middle number; that of an even count is the mean of the two
/// middle numbers, a binary64 value.
pub open spec fn is_median(
    numbers: Seq<DynamicNumber>,
    median_type: MedianType,
    result: Option<DynamicNumber>,
) -> bool {
    let count = numbers.len() as int;
    if count == 0 {
        result is None
    } else {
        match median_type {
            MedianType::Low => result == Some(numbers[low_position(count)]),
            MedianType::High => result == Some(numbers[count / 2]),
            MedianType::Interpolation => if count % 2 == 1 {
                result == Some(numbers[count / 2])
            } else {
                result matches Some(mean) && is_midpoint(
                    numbers[count / 2 - 1],
                    numbers[count / 2],
                    mean,
                )
            },
        }
    }
}

/// The mean of two numbers as a binary64 value. Two integers whose sum has
/// less than 53 bits are halved here, exactly. Any other two are taken as
/// binary64 values, added and halved by the caller's arithmetic.
pub fn midpoint<A: FloatArith>(down: &DynamicNumber, up: &DynamicNumber, arith: &A) -> (r:
    DynamicNumber)
    ensures
        is_midpoint_with(arith, *down, *up, r),
{
    match (down, up) {
        (DynamicNumber::Integer(a), DynamicNumber::Integer(b)) => {
            let total: i128 = *a as i128 + *b as i128;
            if -(EXACT_LIMIT as i128) < total && total < EXACT_LIMIT as i128 {
                return DynamicNumber::Float(exact_half(total as i64));
            }
        },
        _ => {},
    }
    let left = down.to_float(arith);
    let right = up.to_float(arith);
    let total = arith.sum(left, right);
    let mean = arith.quotient(total, Float::two());
    proof {
        assert(is_sum(arith, left, right, total));
        assert(is_quotient(arith, total, Float { bits: TWO_BITS }, mean));
    }
    DynamicNumber::Float(mean)
}

/// Collects numbers; once sorted, their medians can be read off.
#[derive(Debug, Clone)]
pub struct Numbers {
    numbers: Vec<DynamicNumber>,
}

impl View for Numbers {
    type V = Seq<DynamicNumber>;

    closed spec fn view(&self) -> Seq<DynamicNumber> {
        self.numbers@
    }
}

impl Numbers {
    pub fn new() -> (r: Self)
        ensures
            r@ == Seq::<DynamicNumber>::empty(),
    {
        Self { numbers: Vec::new() }
    }

    pub fn clear(&mut self)
        ensures
            final(self)@ == Seq::<DynamicNumber>::empty(),
    {
        self.numbers.clear();
    }

    pub fn add(&mut self, number: DynamicNumber)
        ensures
            final(self)@ == old(self)@.push(number),
    {
        self.numbers.push(number);
    }

    /// Sorts the numbers collected so far. The same numbers are held
    /// afterwards, in order, and numbers that compare equal stand as they
    /// stood; so numbers that were in order already stay as they were.
    pub fn finalize(&mut self)
        ensures
            ordered(final(self)@),
            final(self)@.to_multiset() == old(self)@.to_multiset(),
            keeps_ties(final(self)@, old(self)@),
            ordered(old(self)@) ==> final(self)@ == old(self)@,
    {
        sort_numbers(&mut self.numbers);
        proof {
            if ordered(old(self)@) {
                lemma_sorted_is_unique(self@, old(self)@);
            }
        }
    }

    /// The median of the numbers as they stand; call `finalize` first.
    pub fn median<A: FloatArith>(&self, median_type: &MedianType, arith: &A) -> (r: Option<
        DynamicNumber,
    >)
        ensures
            is_median_with(arith, self@, *median_type, r),
    {
        let count = self.numbers.len();
        if count == 0 {
            return None;
        }
        let median = match median_type {
            MedianType::Low => {
                let mut midpoint = count / 2;
                if count % 2 == 0 {
                    midpoint -= 1;
                }
                self.numbers[midpoint]
            },
            MedianType::High => {
                let midpoint = count / 2;
                self.numbers[midpoint]
            },
            MedianType::Interpolation => {
                let midpoint = count / 2;
                if count % 2 == 1 {
                    self.numbers[midpoint]
                } else {
                    let down = &self.numbers[midpoint - 1];
                    let up = &self.numbers[midpoint];
                    self::midpoint(down, up, arith)
                }
            },
        };
        Some(median)
    }

    pub fn duplicate(&self) -> (r: Self)
        ensures
            r@ == self@,
    {
        let mut numbers: Vec<DynamicNumber> = Vec::new();
        let mut i: usize = 0;
        while i < self.numbers.len()
            invariant
                i <= self.numbers.len(),
                numbers@ == self.numbers@.take(i as int),
            decreases self.numbers.len() - i,
        {
            numbers.push(self.numbers[i]);
            proof {
                assert(self.numbers@.take(i + 1) =~= self.numbers@.take(i as int).push(
                    self.numbers@[i as int],
                ));
            }
            i += 1;
        }
        proof {
            assert(self.numbers@.take(i as int) =~= self.numbers@);
        }
        Self { numbers }
    }
}

/// Among sorted numbers the low median does not come after the high one,
/// and with an odd count every median is the same number. With an even
/// count the interpolated median lies between the two where it is found
/// without rounding: where the middle numbers are integers whose sum has
/// less than 53 bits.
pub proof fn lemma_medians_in_order(
    numbers: Seq<DynamicNumber>,
    low: Option<DynamicNumber>,
    median: Option<DynamicNumber>,
    high: Option<DynamicNumber>,
)
    requires
        ordered(numbers),
        numbers.len() > 0,
        is_median(numbers, MedianType::Low, low),
        is_median(numbers, MedianType::Interpolation, median),
        is_median(numbers, MedianType::High, high),
    ensures
        low is Some && median is Some && high is Some,
        low.unwrap().key() <= high.unwrap().key(),
        numbers.len() % 2 == 1 ==> low == median && median == high,
        (low.unwrap() matches DynamicNumber::Integer(a) && high.unwrap() matches DynamicNumber::Integer(
            b,
        ) && -EXACT_LIMIT < a + b < EXACT_LIMIT) ==> low.unwrap().key() <= median.unwrap().key()
            <= high.unwrap().key(),
{
    let count = numbers.len() as int;
    if count % 2 == 0 {
        match (low.unwrap(), high.unwrap()) {
            (DynamicNumber::Integer(a), DynamicNumber::Integer(b)) => {
                if -EXACT_LIMIT < a + b < EXACT_LIMIT {
                    let unit = pow2(1073) as int;
                    lemma_pow2_pos(1073);
                    lemma_pow2_unfold(1074);
                    assert(integer_key(a as int) == (2 * a) * unit) by (nonlinear_arith)
                        requires
                            integer_key(a as int) == a * pow2(1074),
                            pow2(1074) == 2 * unit,
                    ;
                    assert(integer_key(b as int) == (2 * b) * unit) by (nonlinear_arith)
                        requires
                            integer_key(b as int) == b * pow2(1074),
                            pow2(1074) == 2 * unit,
                    ;
                    assert(a <= b) by {
                        if a > b {
                            assert((2 * a) * unit > (2 * b) * unit) by (nonlinear_arith)
                                requires
                                    a > b,
                                    unit > 0,
                            ;
                        }
                    }
                    assert((2 * a) * unit <= (a + b) * unit <= (2 * b) * unit) by (nonlinear_arith)
                        requires
                            a <= b,
                            unit > 0,
                    ;
                }
            },
            _ => {},
        }
    }
}

} // verus!
