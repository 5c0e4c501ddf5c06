//! The single-purpose streaming accumulators.
//!
//! Each atom starts empty, takes values one at a time and can be asked for
//! its answer at any moment. `clear` returns an atom to the state in which
//! `new` made it.

use vstd::prelude::*;
use vstd::wrapping::i64_specs::wrapping_add;
use crate::number::{
    is_difference,
    is_float_of,
    is_product,
    is_quotient,
    is_rounding,
    is_square_root,
    is_sum,
    Comparison,
    DynamicNumber,
    Float,
    FloatArith,
};
use crate::text::{copy_bytes, lex_compare, lex_comparison};
use crate::value::{DynamicValue, Value};

verus! {

/// The most observations that an atom counts: what fits both a `usize` and
/// an `i64`, so that a count can be handed out as an integer value.
pub open spec fn count_limit() -> nat {
    if usize::MAX <= i64::MAX {
        usize::MAX as nat
    } else {
        i64::MAX as nat
    }
}

/// The most observations that an atom counts.
pub fn count_limit_value() -> (r: usize)
    ensures
        r == count_limit(),
{
    if usize::MAX as u128 <= i64::MAX as u128 {
        usize::MAX
    } else {
        i64::MAX as usize
    }
}

/// Counts observations.
#[derive(Debug, Clone)]
pub struct Count {
    current: usize,
}

impl View for Count {
    type V = nat;

    closed spec fn view(&self) -> nat {
        self.current as nat
    }
}

impl Count {
    pub fn new() -> (r: Self)
        ensures
            r@ == 0,
    {
        Self { current: 0 }
    }

    pub fn clear(&mut self)
        ensures
            final(self)@ == 0,
    {
        self.current = 0;
    }

    pub fn add(&mut self)
        requires
            old(self)@ < usize::MAX,
        ensures
            final(self)@ == old(self)@ + 1,
    {
        self.current += 1;
    }

    pub fn get(&self) -> (r: usize)
        ensures
            r == self@,
    {
        self.current
    }

    pub fn duplicate(&self) -> (r: Self)
        ensures
            r@ == self@,
    {
        Self { current: self.current }
    }
}

/// What an [`AllAny`] has seen: whether every value was true, and whether
/// any was.
pub struct AllAnyState {
    pub all: bool,
    pub any: bool,
}

/// Tracks whether all observed truth values were true and whether any was.
#[derive(Debug, Clone)]
pub struct AllAny {
    all: bool,
    any: bool,
}

impl View for AllAny {
    type V = AllAnyState;

    closed spec fn view(&self) -> AllAnyState {
        AllAnyState { all: self.all, any: self.any }
    }
}

impl AllAny {
    pub fn new() -> (r: Self)
        ensures
            r@ == (AllAnyState { all: true, any: false }),
    {
        Self { all: true, any: false }
    }

    pub fn clear(&mut self)
        ensures
            final(self)@ == (AllAnyState { all: true, any: false }),
    {
        self.all = true;
        self.any = false;
    }

    pub fn add(&mut self, new_bool: bool)
        ensures
            final(self)@ == (AllAnyState {
                all: old(self)@.all && new_bool,
                any: old(self)@.any || new_bool,
            }),
    {
        self.all = self.all && new_bool;
        self.any = self.any || new_bool;
    }

    pub fn all(&self) -> (r: bool)
        ensures
            r == self@.all,
    {
        self.all
    }

    pub fn any(&self) -> (r: bool)
        ensures
            r == self@.any,
    {
        self.any
    }

    pub fn duplicate(&self) -> (r: Self)
        ensures
            r@ == self@,
    {
        Self { all: self.all, any: self.any }
    }
}

/// What a [`FirstLast`] remembers: the first and the last value it was
/// given, each with the index of its row.
pub struct FirstLastState {
    pub first: Option<(usize, Value)>,
    pub last: Option<(usize, Value)>,
}

/// Remembers the first and the last value it was given.
#[derive(Debug, Clone)]
pub struct FirstLast {
    first: Option<(usize, DynamicValue)>,
    last: Option<(usize, DynamicValue)>,
}

/// The model of an optional indexed value.
pub open spec fn indexed_view(entry: Option<(usize, DynamicValue)>) -> Option<(usize, Value)> {
    match entry {
        Some(pair) => Some((pair.0, pair.1@)),
        None => None,
    }
}

impl View for FirstLast {
    type V = FirstLastState;

    closed spec fn view(&self) -> FirstLastState {
        FirstLastState { first: indexed_view(self.first), last: indexed_view(self.last) }
    }
}

fn duplicate_indexed(entry: &Option<(usize, DynamicValue)>) -> (r: Option<(usize, DynamicValue)>)
    ensures
        indexed_view(r) == indexed_view(*entry),
{
    match entry {
        Some(pair) => Some((pair.0, pair.1.duplicate())),
        None => None,
    }
}

fn indexed_value(entry: &Option<(usize, DynamicValue)>) -> (r: Option<DynamicValue>)
    ensures
        match indexed_view(*entry) {
            Some(pair) => r matches Some(value) && value@ == pair.1,
            None => r is None,
        },
{
    match entry {
        Some(pair) => Some(pair.1.duplicate()),
        None => None,
    }
}

impl FirstLast {
    pub fn new() -> (r: Self)
        ensures
            r@ == (FirstLastState { first: None, last: None }),
    {
        Self { first: None, last: None }
    }

    pub fn clear(&mut self)
        ensures
            final(self)@ == (FirstLastState { first: None, last: None }),
    {
        self.first = None;
        self.last = None;
    }

    /// Takes the value of row `index`: it is the last one from now on, and
    /// the first one if there was none.
    pub fn add(&mut self, index: usize, next_value: &DynamicValue)
        ensures
            final(self)@ == (FirstLastState {
                first: if old(self)@.first is None {
                    Some((index, next_value@))
                } else {
                    old(self)@.first
                },
                last: Some((index, next_value@)),
            }),
    {
        if self.first.is_none() {
            self.first = Some((index, next_value.duplicate()));
        }
        self.last = Some((index, next_value.duplicate()));
    }

    pub fn first(&self) -> (r: Option<DynamicValue>)
        ensures
            match self@.first {
                Some(pair) => r matches Some(value) && value@ == pair.1,
                None => r is None,
            },
    {
        indexed_value(&self.first)
    }

    pub fn last(&self) -> (r: Option<DynamicValue>)
        ensures
            match self@.last {
                Some(pair) => r matches Some(value) && value@ == pair.1,
                None => r is None,
            },
    {
        indexed_value(&self.last)
    }

    pub fn duplicate(&self) -> (r: Self)
        ensures
            r@ == self@,
    {
        Self { first: duplicate_indexed(&self.first), last: duplicate_indexed(&self.last) }
    }
}

/// How a running sum moves when a value is added. Two integers add as
/// machine integers do, wrapping around at the ends of their range. As soon
/// as either side is a binary64 value the sum is one, rounded by the
/// caller's arithmetic.
pub open spec fn sum_step(before: DynamicNumber, value: DynamicNumber, after: DynamicNumber) -> bool {
    match (before, value) {
        (DynamicNumber::Integer(a), DynamicNumber::Integer(b)) => after == DynamicNumber::Integer(
            wrapping_add(a, b),
        ),
        _ => after is Float,
    }
}

/// How a running sum moves when a value is added, with the arithmetic
/// that rounds: two integers add as machine integers do; any other two are
/// taken as binary64 values, an integer as the arithmetic rounds it, and
/// the sum is what the arithmetic answers to their addition.
pub open spec fn is_sum_with<A: FloatArith>(
    arith: &A,
    before: DynamicNumber,
    value: DynamicNumber,
    after: DynamicNumber,
) -> bool {
    match (before, value) {
        (DynamicNumber::Integer(a), DynamicNumber::Integer(b)) => after == DynamicNumber::Integer(
            wrapping_add(a, b),
        ),
        _ => after is Float && exists|left: Float, right: Float|
            {
                &&& is_float_of(arith, before, left)
                &&& is_float_of(arith, value, right)
                &&& #[trigger] is_sum(arith, left, right, after->Float_0)
            },
    }
}

/// A running sum.
#[derive(Debug, Clone)]
pub struct Sum {
    current: DynamicNumber,
}

impl View for Sum {
    type V = DynamicNumber;

    closed spec fn view(&self) -> DynamicNumber {
        self.current
    }
}

impl Sum {
    pub fn new() -> (r: Self)
        ensures
            r@ == DynamicNumber::Integer(0),
    {
        Self { current: DynamicNumber::Integer(0) }
    }

    pub fn clear(&mut self)
        ensures
            final(self)@ == DynamicNumber::Integer(0),
    {
        self.current = DynamicNumber::Integer(0);
    }

    /// Replaces the sum by a binary64 value.
    fn set_float(&mut self, total: Float)
        ensures
            final(self)@ == DynamicNumber::Float(total),
    {
        self.current = DynamicNumber::Float(total);
    }

    /// Adds a number. Two integers add as machine integers do. Any other two
    /// are taken as binary64 values and added by the arithmetic.
    pub fn add<A: FloatArith>(&mut self, value: &DynamicNumber, arith: &A)
        ensures
            sum_step(old(self)@, *value, final(self)@),
            is_sum_with(arith, old(self)@, *value, final(self)@),
    {
        match (self.current, *value) {
            (DynamicNumber::Integer(a), DynamicNumber::Integer(b)) => {
                self.current = DynamicNumber::Integer(a.wrapping_add(b));
            },
            (held, given) => {
                let left = held.to_float(arith);
                let right = given.to_float(arith);
                let total = arith.sum(left, right);
                self.set_float(total);
                proof {
                    assert(self@ == DynamicNumber::Float(total));
                    assert(is_float_of(arith, old(self)@, left));
                    assert(is_float_of(arith, *value, right));
                    assert(is_sum(arith, left, right, self@->Float_0));
                }
            },
        }
    }

    pub fn get(&self) -> (r: DynamicNumber)
        ensures
            r == self@,
    {
        self.current
    }

    pub fn duplicate(&self) -> (r: Self)
        ensures
            r@ == self@,
    {
        Self { current: self.current }
    }
}

/// The least and the greatest number after one more: a number replaces the
/// least only if it comes strictly before it, and the greatest only if it
/// comes strictly after it.
pub open spec fn extent_step(
    before: Option<(DynamicNumber, DynamicNumber)>,
    value: DynamicNumber,
) -> Option<(DynamicNumber, DynamicNumber)> {
    match before {
        None => Some((value, value)),
        Some((min, max)) => Some(
            (
                if value.key() < min.key() {
                    value
                } else {
                    min
                },
                if value.key() > max.key() {
                    value
                } else {
                    max
                },
            ),
        ),
    }
}

/// The least and the greatest of the numbers seen.
#[derive(Debug, Clone)]
pub struct Extent {
    extent: Option<(DynamicNumber, DynamicNumber)>,
}

impl View for Extent {
    type V = Option<(DynamicNumber, DynamicNumber)>;

    closed spec fn view(&self) -> Option<(DynamicNumber, DynamicNumber)> {
        self.extent
    }
}

impl Extent {
    pub fn new() -> (r: Self)
        ensures
            r@ is None,
    {
        Self { extent: None }
    }

    pub fn clear(&mut self)
        ensures
            final(self)@ is None,
    {
        self.extent = None;
    }

    pub fn add(&mut self, value: DynamicNumber)
        ensures
            final(self)@ == extent_step(old(self)@, value),
    {
        match self.extent {
            None => {
                self.extent = Some((value, value));
            },
            Some((min, max)) => {
                let new_min = if value.compare(&min) == Comparison::Less {
                    value
                } else {
                    min
                };
                let new_max = if value.compare(&max) == Comparison::Greater {
                    value
                } else {
                    max
                };
                self.extent = Some((new_min, new_max));
            },
        }
    }

    pub fn min(&self) -> (r: Option<DynamicNumber>)
        ensures
            r == match self@ {
                Some(pair) => Some(pair.0),
                None => None,
            },
    {
        match self.extent {
            Some((min, _)) => Some(min),
            None => None,
        }
    }

    pub fn max(&self) -> (r: Option<DynamicNumber>)
        ensures
            r == match self@ {
                Some(pair) => Some(pair.1),
                None => None,
            },
    {
        match self.extent {
            Some((_, max)) => Some(max),
            None => None,
        }
    }

    pub fn duplicate(&self) -> (r: Self)
        ensures
            r@ == self@,
    {
        Self { extent: self.extent }
    }
}

/// The lexicographically first and last string after one more.
pub open spec fn lex_extent_step(before: Option<(Seq<u8>, Seq<u8>)>, value: Seq<u8>) -> Option<
    (Seq<u8>, Seq<u8>),
> {
    match before {
        None => Some((value, value)),
        Some((first, last)) => Some(
            (
                if lex_comparison(value, first) == Comparison::Less {
                    value
                } else {
                    first
                },
                if lex_comparison(value, last) == Comparison::Greater {
                    value
                } else {
                    last
                },
            ),
        ),
    }
}

/// The lexicographically first and last of the strings seen, by their bytes.
#[derive(Debug, Clone)]
pub struct LexicographicExtent {
    extent: Option<(Vec<u8>, Vec<u8>)>,
}

impl View for LexicographicExtent {
    type V = Option<(Seq<u8>, Seq<u8>)>;

    closed spec fn view(&self) -> Option<(Seq<u8>, Seq<u8>)> {
        match self.extent {
            Some(pair) => Some((pair.0@, pair.1@)),
            None => None,
        }
    }
}

impl LexicographicExtent {
    pub fn new() -> (r: Self)
        ensures
            r@ is None,
    {
        Self { extent: None }
    }

    pub fn clear(&mut self)
        ensures
            final(self)@ is None,
    {
        self.extent = None;
    }

    pub fn add(&mut self, value: &[u8])
        ensures
            final(self)@ == lex_extent_step(old(self)@, value@),
    {
        let current = self.extent.take();
        match current {
            None => {
                self.extent = Some((copy_bytes(value), copy_bytes(value)));
            },
            Some((first, last)) => {
                let new_first = if lex_compare(value, first.as_slice()) == Comparison::Less {
                    copy_bytes(value)
                } else {
                    first
                };
                let new_last = if lex_compare(value, last.as_slice()) == Comparison::Greater {
                    copy_bytes(value)
                } else {
                    last
                };
                self.extent = Some((new_first, new_last));
            },
        }
    }

    pub fn first(&self) -> (r: Option<Vec<u8>>)
        ensures
            match self@ {
                Some(pair) => r matches Some(bytes) && bytes@ == pair.0,
                None => r is None,
            },
    {
        match &self.extent {
            Some(pair) => Some(copy_bytes(pair.0.as_slice())),
            None => None,
        }
    }

    pub fn last(&self) -> (r: Option<Vec<u8>>)
        ensures
            match self@ {
                Some(pair) => r matches Some(bytes) && bytes@ == pair.1,
                None => r is None,
            },
    {
        match &self.extent {
            Some(pair) => Some(copy_bytes(pair.1.as_slice())),
            None => None,
        }
    }

    pub fn duplicate(&self) -> (r: Self)
        ensures
            r@ == self@,
    {
        match &self.extent {
            Some(pair) => Self {
                extent: Some((copy_bytes(pair.0.as_slice()), copy_bytes(pair.1.as_slice()))),
            },
            None => Self { extent: None },
        }
    }
}

/// What a [`Welford`] holds: how many values it has seen, their running
/// mean and the running sum of squared deviations from it.
pub struct WelfordState {
    pub count: nat,
    pub mean: Float,
    pub m2: Float,
}

/// Whether the moments `after` follow the moments `before` when `value` is
/// taken, by the arithmetic's answers. The count grows by one. The mean
/// moves by the distance of the value from it, divided by the new count.
/// The squared deviations grow by that distance times the distance of the
/// value from the new mean.
pub open spec fn is_welford_step<A: FloatArith>(
    arith: &A,
    before: WelfordState,
    value: Float,
    after: WelfordState,
) -> bool {
    &&& after.count == before.count + 1
    &&& exists|delta: Float, divisor: Float, share: Float, delta2: Float, square: Float|
        #![trigger is_quotient(arith, delta, divisor, share), is_product(arith, delta, delta2, square)]
        {
            &&& is_difference(arith, value, before.mean, delta)
            &&& is_rounding(arith, (before.count + 1) as i64, divisor)
            &&& is_quotient(arith, delta, divisor, share)
            &&& is_sum(arith, before.mean, share, after.mean)
            &&& is_difference(arith, value, after.mean, delta2)
            &&& is_product(arith, delta, delta2, square)
            &&& is_sum(arith, before.m2, square, after.m2)
        }
}

/// Whether the moments `after` follow the moments `before` when a number is
/// taken: the number is taken as a binary64 value, an integer as the
/// arithmetic rounds it.
pub open spec fn is_welford_taking<A: FloatArith>(
    arith: &A,
    before: WelfordState,
    number: DynamicNumber,
    after: WelfordState,
) -> bool {
    exists|value: Float|
        is_float_of(arith, number, value) && #[trigger] is_welford_step(arith, before, value, after)
}

/// `r` is what the arithmetic answers to `m2` divided by the integer
/// `count`, rounded by the arithmetic.
pub open spec fn is_ratio<A: FloatArith>(arith: &A, m2: Float, count: int, r: Float) -> bool {
    exists|divisor: Float|
        is_rounding(arith, count as i64, divisor) && #[trigger] is_quotient(arith, m2, divisor, r)
}

/// `r` is what the arithmetic answers for the square root of `m2` divided
/// by `count`.
pub open spec fn is_root_of_ratio<A: FloatArith>(arith: &A, m2: Float, count: int, r: Float) -> bool {
    exists|ratio: Float| is_ratio(arith, m2, count, ratio) && #[trigger] is_square_root(arith, ratio, r)
}

/// The online mean and variance of the values seen.
///
/// The atom decides here when a statistic exists and in which order the
/// running moments are updated. The numbers themselves are binary64 values
/// and come rounded from the caller's arithmetic.
#[derive(Debug, Clone)]
pub struct Welford {
    count: usize,
    mean: Float,
    m2: Float,
}

impl View for Welford {
    type V = WelfordState;

    closed spec fn view(&self) -> WelfordState {
        WelfordState { count: self.count as nat, mean: self.mean, m2: self.m2 }
    }
}

impl Welford {
    pub fn new() -> (r: Self)
        ensures
            r@ == (WelfordState { count: 0, mean: Float { bits: 0 }, m2: Float { bits: 0 } }),
    {
        Self { count: 0, mean: Float::zero(), m2: Float::zero() }
    }

    pub fn clear(&mut self)
        ensures
            final(self)@ == (WelfordState {
                count: 0,
                mean: Float { bits: 0 },
                m2: Float { bits: 0 },
            }),
    {
        self.count = 0;
        self.mean = Float::zero();
        self.m2 = Float::zero();
    }

    /// Stores the moments that follow one more value.
    fn advance(&mut self, mean: Float, m2: Float)
        requires
            old(self)@.count < usize::MAX,
        ensures
            final(self)@ == (WelfordState { count: old(self)@.count + 1, mean, m2 }),
    {
        self.count += 1;
        self.mean = mean;
        self.m2 = m2;
    }

    /// Takes one more value: the mean moves by the value's distance from it
    /// divided by the new count, and the squared deviations grow by that
    /// distance times the distance from the new mean.
    pub fn add<A: FloatArith>(&mut self, value: Float, arith: &A)
        requires
            old(self)@.count < count_limit(),
        ensures
            is_welford_step(arith, old(self)@, value, final(self)@),
    {
        let count = self.count + 1;
        let delta = arith.difference(value, self.mean);
        let divisor = arith.from_integer(count as i64);
        let share = arith.quotient(delta, divisor);
        let mean = arith.sum(self.mean, share);
        let delta2 = arith.difference(value, mean);
        let square = arith.product(delta, delta2);
        let m2 = arith.sum(self.m2, square);
        proof {
            assert(is_quotient(arith, delta, divisor, share) && is_product(
                arith,
                delta,
                delta2,
                square,
            ));
        }
        self.advance(mean, m2);
    }

    /// Takes one more number, as a binary64 value.
    pub fn add_number<A: FloatArith>(&mut self, number: &DynamicNumber, arith: &A)
        requires
            old(self)@.count < count_limit(),
        ensures
            is_welford_taking(arith, old(self)@, *number, final(self)@),
    {
        let value = number.to_float(arith);
        self.add(value, arith);
        assert(is_float_of(arith, *number, value) && is_welford_step(
            arith,
            old(self)@,
            value,
            self@,
        ));
    }

    pub fn count(&self) -> (r: usize)
        ensures
            r == self@.count,
    {
        self.count
    }

    /// The mean, once a value has been seen.
    pub fn mean(&self) -> (r: Option<Float>)
        ensures
            r == if self@.count == 0 {
                None
            } else {
                Some(self@.mean)
            },
    {
        if self.count == 0 {
            return None;
        }
        Some(self.mean)
    }

    /// The population variance, once a value has been seen: the squared
    /// deviations divided by the count.
    pub fn variance<A: FloatArith>(&self, arith: &A) -> (r: Option<Float>)
        requires
            self@.count <= count_limit(),
        ensures
            match r {
                Some(v) => self@.count >= 1 && is_ratio(arith, self@.m2, self@.count as int, v),
                None => self@.count < 1,
            },
    {
        if self.count < 1 {
            return None;
        }
        let divisor = arith.from_integer(self.count as i64);
        let v = arith.quotient(self.m2, divisor);
        assert(is_quotient(arith, self.m2, divisor, v));
        Some(v)
    }

    /// The sample variance, once two values have been seen: the squared
    /// deviations divided by one less than the count.
    pub fn sample_variance<A: FloatArith>(&self, arith: &A) -> (r: Option<Float>)
        requires
            self@.count <= count_limit(),
        ensures
            match r {
                Some(v) => self@.count >= 2 && is_ratio(
                    arith,
                    self@.m2,
                    self@.count as int - 1,
                    v,
                ),
                None => self@.count < 2,
            },
    {
        if self.count < 2 {
            return None;
        }
        let divisor = arith.from_integer((self.count - 1) as i64);
        let v = arith.quotient(self.m2, divisor);
        assert(is_quotient(arith, self.m2, divisor, v));
        Some(v)
    }

    /// The square root of the population variance.
    pub fn stdev<A: FloatArith>(&self, arith: &A) -> (r: Option<Float>)
        requires
            self@.count <= count_limit(),
        ensures
            match r {
                Some(d) => self@.count >= 1 && is_root_of_ratio(
                    arith,
                    self@.m2,
                    self@.count as int,
                    d,
                ),
                None => self@.count < 1,
            },
    {
        match self.variance(arith) {
            Some(v) => {
                let d = arith.square_root(v);
                assert(is_ratio(arith, self@.m2, self@.count as int, v) && is_square_root(
                    arith,
                    v,
                    d,
                ));
                Some(d)
            },
            None => None,
        }
    }

    /// The square root of the sample variance.
    pub fn sample_stdev<A: FloatArith>(&self, arith: &A) -> (r: Option<Float>)
        requires
            self@.count <= count_limit(),
        ensures
            match r {
                Some(d) => self@.count >= 2 && is_root_of_ratio(
                    arith,
                    self@.m2,
                    self@.count as int - 1,
                    d,
                ),
                None => self@.count < 2,
            },
    {
        match self.sample_variance(arith) {
            Some(v) => {
                let d = arith.square_root(v);
                assert(is_ratio(arith, self@.m2, self@.count as int - 1, v) && is_square_root(
                    arith,
                    v,
                    d,
                ));
                Some(d)
            },
            None => None,
        }
    }

    pub fn duplicate(&self) -> (r: Self)
        ensures
            r@ == self@,
    {
        Self { count: self.count, mean: self.mean, m2: self.m2 }
    }
}

} // verus!
