//! Aggregation methods, the atoms that serve them, and the composite
//! aggregator that holds one atom of each kind an expression needs.

use vstd::prelude::*;
use vstd::string::StringSliceAdditionalSpecFns;
use crate::atoms::{
    count_limit,
    is_ratio,
    is_root_of_ratio,
    is_sum_with,
    is_welford_taking,
    extent_step,
    lex_extent_step,
    AllAny,
    AllAnyState,
    Count,
    Extent,
    FirstLast,
    FirstLastState,
    LexicographicExtent,
    Sum,
    Welford,
    WelfordState,
};
use crate::error::CallError;
use crate::frequencies::{is_mode_at, is_tally_step, Frequencies, Tally};
use crate::number::{DynamicNumber, Float, FloatArith};
use crate::numbers::{is_median_with, MedianType, Numbers};
use crate::sorting::{keeps_ties, ordered};
use crate::text::bytes_eq;
use crate::value::{is_number_of, is_text_of, optional_view, DynamicValue, Value};

verus! {

/// An aggregation function that the engine knows.
#[derive(Debug, Clone, Copy, PartialEq, Eq, Structural)]
pub enum ConcreteAggregationMethod {
    All,
    Any,
    Cardinality,
    Count,
    First,
    Last,
    LexFirst,
    LexLast,
    Min,
    Max,
    Mean,
    Median(MedianType),
    Mode,
    Sum,
    VarPop,
    VarSample,
    StddevPop,
    StddevSample,
}

/// The kinds of atoms.
#[derive(Debug, Clone, Copy, PartialEq, Eq, Structural)]
pub enum AtomKind {
    AllAny,
    Count,
    Extent,
    FirstLast,
    LexicographicExtent,
    Frequencies,
    Numbers,
    Sum,
    Welford,
}

/// The method that a function name stands for.
pub open spec fn method_named(name: Seq<u8>) -> Option<ConcreteAggregationMethod> {
    if name == "all".spec_bytes() {
        Some(ConcreteAggregationMethod::All)
    } else if name == "any".spec_bytes() {
        Some(ConcreteAggregationMethod::Any)
    } else if name == "cardinality".spec_bytes() {
        Some(ConcreteAggregationMethod::Cardinality)
    } else if name == "count".spec_bytes() {
        Some(ConcreteAggregationMethod::Count)
    } else if name == "first".spec_bytes() {
        Some(ConcreteAggregationMethod::First)
    } else if name == "last".spec_bytes() {
        Some(ConcreteAggregationMethod::Last)
    } else if name == "lex_first".spec_bytes() {
        Some(ConcreteAggregationMethod::LexFirst)
    } else if name == "lex_last".spec_bytes() {
        Some(ConcreteAggregationMethod::LexLast)
    } else if name == "min".spec_bytes() {
        Some(ConcreteAggregationMethod::Min)
    } else if name == "max".spec_bytes() {
        Some(ConcreteAggregationMethod::Max)
    } else if name == "mean".spec_bytes() {
        Some(ConcreteAggregationMethod::Mean)
    } else if name == "median".spec_bytes() {
        Some(ConcreteAggregationMethod::Median(MedianType::Interpolation))
    } else if name == "median_high".spec_bytes() {
        Some(ConcreteAggregationMethod::Median(MedianType::High))
    } else if name == "median_low".spec_bytes() {
        Some(ConcreteAggregationMethod::Median(MedianType::Low))
    } else if name == "mode".spec_bytes() {
        Some(ConcreteAggregationMethod::Mode)
    } else if name == "var".spec_bytes() || name == "var_pop".spec_bytes() {
        Some(ConcreteAggregationMethod::VarPop)
    } else if name == "var_sample".spec_bytes() {
        Some(ConcreteAggregationMethod::VarSample)
    } else if name == "stddev".spec_bytes() || name == "stddev_pop".spec_bytes() {
        Some(ConcreteAggregationMethod::StddevPop)
    } else if name == "stddev_sample".spec_bytes() {
        Some(ConcreteAggregationMethod::StddevSample)
    } else if name == "sum".spec_bytes() {
        Some(ConcreteAggregationMethod::Sum)
    } else {
        None
    }
}

/// The name `count` stands for the method that counts.
pub proof fn lemma_count_is_named()
    ensures
        method_named("count".spec_bytes()) == Some(ConcreteAggregationMethod::Count),
{
    reveal_strlit("all");
    reveal_strlit("any");
    reveal_strlit("cardinality");
    reveal_strlit("count");
    vstd::string::is_ascii_spec_bytes("all");
    vstd::string::is_ascii_spec_bytes("any");
    vstd::string::is_ascii_spec_bytes("cardinality");
    vstd::string::is_ascii_spec_bytes("count");
    assert("all".spec_bytes().len() == 3);
    assert("any".spec_bytes().len() == 3);
    assert("cardinality".spec_bytes().len() == 11);
    assert("count".spec_bytes().len() == 5);
}

impl ConcreteAggregationMethod {
    /// The kind of atom that answers the method.
    pub open spec fn spec_kind(&self) -> AtomKind {
        match self {
            ConcreteAggregationMethod::All | ConcreteAggregationMethod::Any => AtomKind::AllAny,
            ConcreteAggregationMethod::Count => AtomKind::Count,
            ConcreteAggregationMethod::Min | ConcreteAggregationMethod::Max => AtomKind::Extent,
            ConcreteAggregationMethod::First | ConcreteAggregationMethod::Last => {
                AtomKind::FirstLast
            },
            ConcreteAggregationMethod::LexFirst | ConcreteAggregationMethod::LexLast => {
                AtomKind::LexicographicExtent
            },
            ConcreteAggregationMethod::Median(_) => AtomKind::Numbers,
            ConcreteAggregationMethod::Mode | ConcreteAggregationMethod::Cardinality => {
                AtomKind::Frequencies
            },
            ConcreteAggregationMethod::Sum => AtomKind::Sum,
            ConcreteAggregationMethod::Mean
            | ConcreteAggregationMethod::VarPop
            | ConcreteAggregationMethod::VarSample
            | ConcreteAggregationMethod::StddevPop
            | ConcreteAggregationMethod::StddevSample => AtomKind::Welford,
        }
    }

    #[verifier::when_used_as_spec(spec_kind)]
    pub fn kind(&self) -> (r: AtomKind)
        ensures
            r == self.spec_kind(),
    {
        match self {
            ConcreteAggregationMethod::All | ConcreteAggregationMethod::Any => AtomKind::AllAny,
            ConcreteAggregationMethod::Count => AtomKind::Count,
            ConcreteAggregationMethod::Min | ConcreteAggregationMethod::Max => AtomKind::Extent,
            ConcreteAggregationMethod::First | ConcreteAggregationMethod::Last => {
                AtomKind::FirstLast
            },
            ConcreteAggregationMethod::LexFirst | ConcreteAggregationMethod::LexLast => {
                AtomKind::LexicographicExtent
            },
            ConcreteAggregationMethod::Median(_) => AtomKind::Numbers,
            ConcreteAggregationMethod::Mode | ConcreteAggregationMethod::Cardinality => {
                AtomKind::Frequencies
            },
            ConcreteAggregationMethod::Sum => AtomKind::Sum,
            ConcreteAggregationMethod::Mean
            | ConcreteAggregationMethod::VarPop
            | ConcreteAggregationMethod::VarSample
            | ConcreteAggregationMethod::StddevPop
            | ConcreteAggregationMethod::StddevSample => AtomKind::Welford,
        }
    }

    /// The method that the function name `name` stands for, if any.
    pub fn parse(name: &str) -> (r: Option<Self>)
        ensures
            r == method_named(name.spec_bytes()),
    {
        Self::parse_bytes(name.as_bytes())
    }

    /// The method that the function name `name` stands for, if any.
    pub fn parse_bytes(name: &[u8]) -> (r: Option<Self>)
        ensures
            r == method_named(name@),
    {
        if bytes_eq(name, "all".as_bytes()) {
            Some(ConcreteAggregationMethod::All)
        } else if bytes_eq(name, "any".as_bytes()) {
            Some(ConcreteAggregationMethod::Any)
        } else if bytes_eq(name, "cardinality".as_bytes()) {
            Some(ConcreteAggregationMethod::Cardinality)
        } else if bytes_eq(name, "count".as_bytes()) {
            Some(ConcreteAggregationMethod::Count)
        } else if bytes_eq(name, "first".as_bytes()) {
            Some(ConcreteAggregationMethod::First)
        } else if bytes_eq(name, "last".as_bytes()) {
            Some(ConcreteAggregationMethod::Last)
        } else if bytes_eq(name, "lex_first".as_bytes()) {
            Some(ConcreteAggregationMethod::LexFirst)
        } else if bytes_eq(name, "lex_last".as_bytes()) {
            Some(ConcreteAggregationMethod::LexLast)
        } else if bytes_eq(name, "min".as_bytes()) {
            Some(ConcreteAggregationMethod::Min)
        } else if bytes_eq(name, "max".as_bytes()) {
            Some(ConcreteAggregationMethod::Max)
        } else if bytes_eq(name, "mean".as_bytes()) {
            Some(ConcreteAggregationMethod::Mean)
        } else if bytes_eq(name, "median".as_bytes()) {
            Some(ConcreteAggregationMethod::Median(MedianType::Interpolation))
        } else if bytes_eq(name, "median_high".as_bytes()) {
            Some(ConcreteAggregationMethod::Median(MedianType::High))
        } else if bytes_eq(name, "median_low".as_bytes()) {
            Some(ConcreteAggregationMethod::Median(MedianType::Low))
        } else if bytes_eq(name, "mode".as_bytes()) {
            Some(ConcreteAggregationMethod::Mode)
        } else if bytes_eq(name, "var".as_bytes()) || bytes_eq(name, "var_pop".as_bytes()) {
            Some(ConcreteAggregationMethod::VarPop)
        } else if bytes_eq(name, "var_sample".as_bytes()) {
            Some(ConcreteAggregationMethod::VarSample)
        } else if bytes_eq(name, "stddev".as_bytes()) || bytes_eq(name, "stddev_pop".as_bytes()) {
            Some(ConcreteAggregationMethod::StddevPop)
        } else if bytes_eq(name, "stddev_sample".as_bytes()) {
            Some(ConcreteAggregationMethod::StddevSample)
        } else if bytes_eq(name, "sum".as_bytes()) {
            Some(ConcreteAggregationMethod::Sum)
        } else {
            None
        }
    }
}

/// One atom of any kind.
#[derive(Debug, Clone)]
pub enum Aggregator {
    AllAny(AllAny),
    Count(Count),
    Extent(Extent),
    FirstLast(FirstLast),
    LexicographicExtent(LexicographicExtent),
    Frequencies(Frequencies),
    Numbers(Numbers),
    Sum(Sum),
    Welford(Welford),
}

/// What an [`Aggregator`] holds.
pub enum Atom {
    AllAny(AllAnyState),
    Count(nat),
    Extent(Option<(DynamicNumber, DynamicNumber)>),
    FirstLast(FirstLastState),
    LexicographicExtent(Option<(Seq<u8>, Seq<u8>)>),
    Frequencies(Seq<Tally>),
    Numbers(Seq<DynamicNumber>),
    Sum(DynamicNumber),
    Welford(WelfordState),
}

impl Atom {
    pub open spec fn kind(self) -> AtomKind {
        match self {
            Atom::AllAny(_) => AtomKind::AllAny,
            Atom::Count(_) => AtomKind::Count,
            Atom::Extent(_) => AtomKind::Extent,
            Atom::FirstLast(_) => AtomKind::FirstLast,
            Atom::LexicographicExtent(_) => AtomKind::LexicographicExtent,
            Atom::Frequencies(_) => AtomKind::Frequencies,
            Atom::Numbers(_) => AtomKind::Numbers,
            Atom::Sum(_) => AtomKind::Sum,
            Atom::Welford(_) => AtomKind::Welford,
        }
    }

    /// The atom of a kind that has seen nothing.
    pub open spec fn fresh(kind: AtomKind) -> Atom {
        match kind {
            AtomKind::AllAny => Atom::AllAny(AllAnyState { all: true, any: false }),
            AtomKind::Count => Atom::Count(0),
            AtomKind::Extent => Atom::Extent(None),
            AtomKind::FirstLast => Atom::FirstLast(FirstLastState { first: None, last: None }),
            AtomKind::LexicographicExtent => Atom::LexicographicExtent(None),
            AtomKind::Frequencies => Atom::Frequencies(Seq::empty()),
            AtomKind::Numbers => Atom::Numbers(Seq::empty()),
            AtomKind::Sum => Atom::Sum(DynamicNumber::Integer(0)),
            AtomKind::Welford => Atom::Welford(
                WelfordState { count: 0, mean: Float { bits: 0 }, m2: Float { bits: 0 } },
            ),
        }
    }

    /// No count that the atom keeps exceeds `bound`.
    pub open spec fn counts_at_most(self, bound: nat) -> bool {
        match self {
            Atom::Count(count) => count <= bound,
            Atom::Frequencies(entries) => Frequencies::counts_at_most(entries, bound),
            Atom::Welford(state) => state.count <= bound,
            _ => true,
        }
    }

    /// The atom after `finalize`: the numbers of a median atom are sorted,
    /// those that compare equal standing as they stood; every other atom is
    /// as it was.
    pub open spec fn is_finalized_from(self, before: Atom) -> bool {
        match before {
            Atom::Numbers(numbers) => self matches Atom::Numbers(sorted) && ordered(sorted)
                && sorted.to_multiset() == numbers.to_multiset() && keeps_ties(sorted, numbers),
            _ => self == before,
        }
    }
}

impl AtomKind {
    /// Whether atoms of the kind take their values as numbers.
    pub open spec fn spec_takes_numbers(self) -> bool {
        self is Extent || self is Numbers || self is Sum || self is Welford
    }

    #[verifier::when_used_as_spec(spec_takes_numbers)]
    pub fn takes_numbers(self) -> (r: bool)
        ensures
            r == self.spec_takes_numbers(),
    {
        match self {
            AtomKind::Extent | AtomKind::Numbers | AtomKind::Sum | AtomKind::Welford => true,
            _ => false,
        }
    }
}

/// What the atoms of a unit are handed for one row: the value of the
/// unit's expression, if it has one, and the number that the value reads
/// as, where an atom needs it.
#[derive(Debug)]
pub struct Reading {
    pub value: Option<DynamicValue>,
    pub number: Option<DynamicNumber>,
}

/// What a [`Reading`] holds.
pub struct Read {
    pub value: Option<Value>,
    pub number: Option<DynamicNumber>,
}

impl View for Reading {
    type V = Read;

    open spec fn view(&self) -> Read {
        Read { value: optional_view(self.value), number: self.number }
    }
}

/// Some atom takes its values as numbers.
pub open spec fn needs_number(atoms: Seq<Atom>) -> bool {
    exists|i: int| 0 <= i < atoms.len() && (#[trigger] atoms[i]).kind().spec_takes_numbers()
}

/// The value has to be read as a number before the atoms can take it: it
/// is not nullish, and some atom takes numbers.
pub open spec fn wants_number(atoms: Seq<Atom>, value: Option<Value>) -> bool {
    value matches Some(v) && !v.is_nullish() && needs_number(atoms)
}

/// Whether reading `value` for the atoms can come to `outcome`. Where no
/// number is wanted the reading holds the value and no number. Where one is
/// wanted the value is read as a number, once for all atoms: the reading
/// holds the number, or the reading fails.
pub open spec fn is_reading<A: FloatArith>(arith: &A, atoms: Seq<Atom>, value: Option<Value>, outcome: Result<Read, CallError>) -> bool {
    match outcome {
        Ok(read) => {
            &&& read.value == value
            &&& if wants_number(atoms, value) {
                read.number matches Some(n) && is_number_of(arith, value->0, Ok(n))
            } else {
                read.number is None
            }
        },
        Err(e) => wants_number(atoms, value) && is_number_of(arith, value->0, Err(e)),
    }
}

/// Whether an atom can be handed the reading: only a count does without a
/// value, and an atom that takes numbers has the number of every value
/// that is not nullish.
pub open spec fn suits(read: Read, atom: Atom) -> bool {
    &&& read.value is None ==> atom is Count
    &&& (read.value matches Some(v) && !v.is_nullish() && atom.kind().spec_takes_numbers())
        ==> read.number is Some
}

/// Whether an atom in state `before`, handed the reading of row `index`,
/// can end in state `after`.
///
/// Without a value only a count moves. With one: truth is taken of any
/// value, and lexicographic extents and frequencies take the text of any
/// value, the empty text of a nullish one too. Every other atom passes
/// over a nullish value: counts and first/last take any other value;
/// extents, medians and sums take the number, and the mean takes it as a
/// binary64 value.
pub open spec fn is_atom_step<A: FloatArith>(arith: &A, before: Atom, index: usize, read: Read, after: Atom) -> bool {
    match read.value {
        None => before matches Atom::Count(count) && after == Atom::Count(count + 1),
        Some(v) => match before {
            Atom::AllAny(state) => after == Atom::AllAny(
                AllAnyState { all: state.all && v.is_truthy(), any: state.any || v.is_truthy() },
            ),
            Atom::LexicographicExtent(_) | Atom::Frequencies(_) => is_taking_step(arith, before,
                index,
                v,
                read.number,
                after,
            ),
            _ => if v.is_nullish() {
                after == before
            } else {
                is_taking_step(arith, before, index, v, read.number, after)
            },
        },
    }
}

/// Whether an atom that is no truth atom, in state `before`, can end in
/// state `after` when it takes the value `v` of row `index`, which reads as
/// `number` where the atom takes numbers.
pub open spec fn is_taking_step<A: FloatArith>(arith: &A, before: Atom,
    index: usize,
    v: Value,
    number: Option<DynamicNumber>,
    after: Atom,
) -> bool {
    match before {
        Atom::AllAny(_) => false,
        Atom::Count(count) => after == Atom::Count(count + 1),
        Atom::Extent(extent) => number matches Some(n) && after == Atom::Extent(
            extent_step(extent, n),
        ),
        Atom::FirstLast(state) => after == Atom::FirstLast(
            FirstLastState {
                first: if state.first is None {
                    Some((index, v))
                } else {
                    state.first
                },
                last: Some((index, v)),
            },
        ),
        Atom::LexicographicExtent(extent) => exists|text: Seq<u8>|
            #[trigger] is_text_of(arith, v, text) && after == Atom::LexicographicExtent(
                lex_extent_step(extent, text),
            ),
        Atom::Frequencies(entries) => exists|text: Seq<u8>|
            {
                &&& #[trigger] is_text_of(arith, v, text)
                &&& after matches Atom::Frequencies(counted)
                &&& is_tally_step(entries, text, counted)
            },
        Atom::Numbers(numbers) => number matches Some(n) && after == Atom::Numbers(
            numbers.push(n),
        ),
        Atom::Sum(total) => {
            &&& number matches Some(n)
            &&& after matches Atom::Sum(next)
            &&& is_sum_with(arith, total, n, next)
        },
        Atom::Welford(_) => {
            &&& number is Some
            &&& after is Welford
            &&& is_welford_taking(arith, before->Welford_0, number->0, after->Welford_0)
        },
    }
}

/// Whether `value` can be what an atom answers to `method`.
///
/// Truths and counts are exact; an atom that has seen nothing answers the
/// absent value where it has no answer. A variance is what the arithmetic
/// answers for the squared deviations divided by the count, less one for a
/// sample, and a deviation what it answers for the root of that; they are
/// present from the first value on for a population and from the second on
/// for a sample. The interpolated median of an even count is the exact half
/// of the sum of the two middle numbers where these are integers whose sum
/// a binary64 value holds exactly, else what the arithmetic answers for
/// their sum divided by two.
pub open spec fn is_final_value<A: FloatArith>(arith: &A, atom: Atom, method: ConcreteAggregationMethod, value: Value) -> bool {
    match (atom, method) {
        (Atom::AllAny(state), ConcreteAggregationMethod::All) => value == Value::Boolean(state.all),
        (Atom::AllAny(state), ConcreteAggregationMethod::Any) => value == Value::Boolean(state.any),
        (Atom::Frequencies(entries), ConcreteAggregationMethod::Cardinality) => value
            == Value::Integer(entries.len() as i64),
        (Atom::Count(count), ConcreteAggregationMethod::Count) => value == Value::Integer(
            count as i64,
        ),
        (Atom::FirstLast(state), ConcreteAggregationMethod::First) => value == match state.first {
            Some(pair) => pair.1,
            None => Value::Null,
        },
        (Atom::FirstLast(state), ConcreteAggregationMethod::Last) => value == match state.last {
            Some(pair) => pair.1,
            None => Value::Null,
        },
        (Atom::LexicographicExtent(extent), ConcreteAggregationMethod::LexFirst) => value
            == match extent {
            Some(pair) => Value::String(pair.0),
            None => Value::Null,
        },
        (Atom::LexicographicExtent(extent), ConcreteAggregationMethod::LexLast) => value
            == match extent {
            Some(pair) => Value::String(pair.1),
            None => Value::Null,
        },
        (Atom::Extent(extent), ConcreteAggregationMethod::Min) => value == match extent {
            Some(pair) => Value::of_number(pair.0),
            None => Value::Null,
        },
        (Atom::Extent(extent), ConcreteAggregationMethod::Max) => value == match extent {
            Some(pair) => Value::of_number(pair.1),
            None => Value::Null,
        },
        (Atom::Welford(state), ConcreteAggregationMethod::Mean) => value == if state.count == 0 {
            Value::Null
        } else {
            Value::Float(state.mean)
        },
        (Atom::Numbers(numbers), ConcreteAggregationMethod::Median(median_type)) => {
            &&& value is Null || value is Integer || value is Float
            &&& is_median_with(arith, numbers, median_type, value.as_number())
        },
        (Atom::Frequencies(entries), ConcreteAggregationMethod::Mode) => if entries.len() == 0 {
            value == Value::Null
        } else {
            exists|i: int| is_mode_at(entries, i) && value == Value::String((#[trigger] entries[i]).0)
        },
        (Atom::Sum(total), ConcreteAggregationMethod::Sum) => value == Value::of_number(total),
        (Atom::Welford(state), ConcreteAggregationMethod::VarPop) => if state.count >= 1 {
            value is Float && is_ratio(arith, state.m2, state.count as int, value->Float_0)
        } else {
            value == Value::Null
        },
        (Atom::Welford(state), ConcreteAggregationMethod::StddevPop) => if state.count >= 1 {
            value is Float && is_root_of_ratio(arith, state.m2, state.count as int, value->Float_0)
        } else {
            value == Value::Null
        },
        (Atom::Welford(state), ConcreteAggregationMethod::VarSample) => if state.count >= 2 {
            value is Float && is_ratio(arith, state.m2, state.count as int - 1, value->Float_0)
        } else {
            value == Value::Null
        },
        (Atom::Welford(state), ConcreteAggregationMethod::StddevSample) => if state.count >= 2 {
            value is Float && is_root_of_ratio(
                arith,
                state.m2,
                state.count as int - 1,
                value->Float_0,
            )
        } else {
            value == Value::Null
        },
        _ => false,
    }
}

impl View for Aggregator {
    type V = Atom;

    open spec fn view(&self) -> Atom {
        match self {
            Aggregator::AllAny(inner) => Atom::AllAny(inner@),
            Aggregator::Count(inner) => Atom::Count(inner@),
            Aggregator::Extent(inner) => Atom::Extent(inner@),
            Aggregator::FirstLast(inner) => Atom::FirstLast(inner@),
            Aggregator::LexicographicExtent(inner) => Atom::LexicographicExtent(inner@),
            Aggregator::Frequencies(inner) => Atom::Frequencies(inner@),
            Aggregator::Numbers(inner) => Atom::Numbers(inner@),
            Aggregator::Sum(inner) => Atom::Sum(inner@),
            Aggregator::Welford(inner) => Atom::Welford(inner@),
        }
    }
}

impl Aggregator {
    /// The atom is valid.
    pub open spec fn wf(&self) -> bool {
        match self {
            Aggregator::Frequencies(inner) => inner.wf(),
            _ => true,
        }
    }

    /// A fresh atom of the given kind.
    pub fn new(kind: AtomKind) -> (r: Self)
        ensures
            r.wf(),
            r@ == Atom::fresh(kind),
    {
        match kind {
            AtomKind::AllAny => Aggregator::AllAny(AllAny::new()),
            AtomKind::Count => Aggregator::Count(Count::new()),
            AtomKind::Extent => Aggregator::Extent(Extent::new()),
            AtomKind::FirstLast => Aggregator::FirstLast(FirstLast::new()),
            AtomKind::LexicographicExtent => Aggregator::LexicographicExtent(
                LexicographicExtent::new(),
            ),
            AtomKind::Frequencies => Aggregator::Frequencies(Frequencies::new()),
            AtomKind::Numbers => Aggregator::Numbers(Numbers::new()),
            AtomKind::Sum => Aggregator::Sum(Sum::new()),
            AtomKind::Welford => Aggregator::Welford(Welford::new()),
        }
    }

    pub fn kind(&self) -> (r: AtomKind)
        ensures
            r == self@.kind(),
    {
        match self {
            Aggregator::AllAny(_) => AtomKind::AllAny,
            Aggregator::Count(_) => AtomKind::Count,
            Aggregator::Extent(_) => AtomKind::Extent,
            Aggregator::FirstLast(_) => AtomKind::FirstLast,
            Aggregator::LexicographicExtent(_) => AtomKind::LexicographicExtent,
            Aggregator::Frequencies(_) => AtomKind::Frequencies,
            Aggregator::Numbers(_) => AtomKind::Numbers,
            Aggregator::Sum(_) => AtomKind::Sum,
            Aggregator::Welford(_) => AtomKind::Welford,
        }
    }

    /// Returns the atom to the state in which it was made.
    pub fn clear(&mut self)
        ensures
            final(self).wf(),
            final(self)@ == Atom::fresh(old(self)@.kind()),
    {
        match self {
            Aggregator::AllAny(inner) => inner.clear(),
            Aggregator::Count(inner) => inner.clear(),
            Aggregator::Extent(inner) => inner.clear(),
            Aggregator::FirstLast(inner) => inner.clear(),
            Aggregator::LexicographicExtent(inner) => inner.clear(),
            Aggregator::Frequencies(inner) => inner.clear(),
            Aggregator::Numbers(inner) => inner.clear(),
            Aggregator::Sum(inner) => inner.clear(),
            Aggregator::Welford(inner) => inner.clear(),
        }
    }

    /// Readies the atom for answering: sorts the numbers of a median atom.
    pub fn finalize(&mut self)
        requires
            old(self).wf(),
        ensures
            final(self).wf(),
            final(self)@.is_finalized_from(old(self)@),
    {
        match self {
            Aggregator::Numbers(inner) => {
                inner.finalize();
            },
            _ => (),
        }
    }

    pub fn duplicate(&self) -> (r: Self)
        requires
            self.wf(),
        ensures
            r.wf(),
            r@ == self@,
    {
        match self {
            Aggregator::AllAny(inner) => Aggregator::AllAny(inner.duplicate()),
            Aggregator::Count(inner) => Aggregator::Count(inner.duplicate()),
            Aggregator::Extent(inner) => Aggregator::Extent(inner.duplicate()),
            Aggregator::FirstLast(inner) => Aggregator::FirstLast(inner.duplicate()),
            Aggregator::LexicographicExtent(inner) => Aggregator::LexicographicExtent(
                inner.duplicate(),
            ),
            Aggregator::Frequencies(inner) => Aggregator::Frequencies(inner.duplicate()),
            Aggregator::Numbers(inner) => Aggregator::Numbers(inner.duplicate()),
            Aggregator::Sum(inner) => Aggregator::Sum(inner.duplicate()),
            Aggregator::Welford(inner) => Aggregator::Welford(inner.duplicate()),
        }
    }

    /// Hands the atom the reading of row `index`.
    pub fn feed<A: FloatArith>(&mut self, index: usize, reading: &Reading, arith: &A)
        requires
            old(self).wf(),
            old(self)@.counts_at_most((count_limit() - 1) as nat),
            suits(reading@, old(self)@),
        ensures
            final(self).wf(),
            final(self)@.kind() == old(self)@.kind(),
            is_atom_step(arith, old(self)@, index, reading@, final(self)@),
            grows_by_one(old(self)@, final(self)@),
    {
        match &reading.value {
            Some(value) => {
                let taken = !value.is_nullish();
                match self {
                    Aggregator::AllAny(allany) => {
                        allany.add(value.is_truthy());
                    },
                    Aggregator::LexicographicExtent(extent) => {
                        let text = value.serialize_as_bytes(arith);
                        assert(is_text_of(arith, value@, text@));
                        extent.add(text.as_slice());
                    },
                    Aggregator::Frequencies(frequencies) => {
                        let text = value.serialize_as_bytes(arith);
                        assert(is_text_of(arith, value@, text@));
                        frequencies.add(text);
                    },
                    Aggregator::Count(count) => {
                        if taken {
                            count.add();
                        }
                    },
                    Aggregator::FirstLast(firstlast) => {
                        if taken {
                            firstlast.add(index, value);
                        }
                    },
                    Aggregator::Extent(extent) => {
                        if let Some(n) = reading.number {
                            if taken {
                                extent.add(n);
                            }
                        }
                    },
                    Aggregator::Numbers(numbers) => {
                        if let Some(n) = reading.number {
                            if taken {
                                numbers.add(n);
                            }
                        }
                    },
                    Aggregator::Sum(sum) => {
                        if let Some(n) = reading.number {
                            if taken {
                                sum.add(&n, arith);
                            }
                        }
                    },
                    Aggregator::Welford(variance) => {
                        if let Some(n) = reading.number {
                            if taken {
                                variance.add_number(&n, arith);
                            }
                        }
                    },
                }
            },
            None => {
                if let Aggregator::Count(count) = self {
                    count.add();
                }
            },
        }
    }

    /// What the atom answers to `method`, which must be one of the methods
    /// that its kind serves.
    pub fn get_final_value<A: FloatArith>(
        &self,
        method: &ConcreteAggregationMethod,
        arith: &A,
    ) -> (r: DynamicValue)
        requires
            self.wf(),
            self@.kind() == method.spec_kind(),
            self@.counts_at_most(count_limit()),
        ensures
            is_final_value(arith, self@, *method, r@),
    {
        match (self, method) {
            (Aggregator::AllAny(inner), ConcreteAggregationMethod::All) => DynamicValue::from_bool(
                inner.all(),
            ),
            (Aggregator::AllAny(inner), ConcreteAggregationMethod::Any) => DynamicValue::from_bool(
                inner.any(),
            ),
            (Aggregator::Frequencies(inner), ConcreteAggregationMethod::Cardinality) => {
                DynamicValue::from_count(inner.cardinality())
            },
            (Aggregator::Count(inner), ConcreteAggregationMethod::Count) => {
                DynamicValue::from_count(inner.get())
            },
            (Aggregator::FirstLast(inner), ConcreteAggregationMethod::First) => {
                DynamicValue::from_optional(inner.first())
            },
            (Aggregator::FirstLast(inner), ConcreteAggregationMethod::Last) => {
                DynamicValue::from_optional(inner.last())
            },
            (
                Aggregator::LexicographicExtent(inner),
                ConcreteAggregationMethod::LexFirst,
            ) => DynamicValue::from_optional_bytes(inner.first()),
            (
                Aggregator::LexicographicExtent(inner),
                ConcreteAggregationMethod::LexLast,
            ) => DynamicValue::from_optional_bytes(inner.last()),
            (Aggregator::Extent(inner), ConcreteAggregationMethod::Min) => {
                DynamicValue::from_optional_number(inner.min())
            },
            (Aggregator::Welford(inner), ConcreteAggregationMethod::Mean) => {
                DynamicValue::from_optional_float(inner.mean())
            },
            (Aggregator::Numbers(inner), ConcreteAggregationMethod::Median(median_type)) => {
                DynamicValue::from_optional_number(inner.median(median_type, arith))
            },
            (Aggregator::Extent(inner), ConcreteAggregationMethod::Max) => {
                DynamicValue::from_optional_number(inner.max())
            },
            (Aggregator::Frequencies(inner), ConcreteAggregationMethod::Mode) => {
                DynamicValue::from_optional_bytes(inner.mode())
            },
            (Aggregator::Sum(inner), ConcreteAggregationMethod::Sum) => DynamicValue::from_number(
                inner.get(),
            ),
            (Aggregator::Welford(inner), ConcreteAggregationMethod::VarPop) => {
                DynamicValue::from_optional_float(inner.variance(arith))
            },
            (Aggregator::Welford(inner), ConcreteAggregationMethod::VarSample) => {
                DynamicValue::from_optional_float(inner.sample_variance(arith))
            },
            (Aggregator::Welford(inner), ConcreteAggregationMethod::StddevPop) => {
                DynamicValue::from_optional_float(inner.stdev(arith))
            },
            (Aggregator::Welford(inner), ConcreteAggregationMethod::StddevSample) => {
                DynamicValue::from_optional_float(inner.sample_stdev(arith))
            },
            _ => vstd::pervasive::unreached(),
        }
    }
}

/// Some atom is of the given kind.
pub open spec fn has_kind(atoms: Seq<Atom>, kind: AtomKind) -> bool {
    exists|i: int| 0 <= i < atoms.len() && (#[trigger] atoms[i]).kind() == kind
}

/// No two atoms are of the same kind.
pub open spec fn distinct_kinds(atoms: Seq<Atom>) -> bool {
    forall|i: int, j: int|
        0 <= i < j < atoms.len() ==> (#[trigger] atoms[i]).kind() != (#[trigger] atoms[j]).kind()
}

/// No count that any of the atoms keeps exceeds `bound`.
pub open spec fn atoms_count_at_most(atoms: Seq<Atom>, bound: nat) -> bool {
    forall|i: int| 0 <= i < atoms.len() ==> (#[trigger] atoms[i]).counts_at_most(bound)
}

/// Every atom is as `clear` leaves it.
pub open spec fn all_fresh(atoms: Seq<Atom>) -> bool {
    forall|i: int| 0 <= i < atoms.len() ==> #[trigger] atoms[i] == Atom::fresh(atoms[i].kind())
}

/// The atoms have the same kinds in the same places.
pub open spec fn same_kinds(a: Seq<Atom>, b: Seq<Atom>) -> bool {
    &&& a.len() == b.len()
    &&& forall|i: int| 0 <= i < a.len() ==> (#[trigger] a[i]).kind() == (#[trigger] b[i]).kind()
}

/// Whether the atoms, in states `before`, can end in states `after` when
/// each is handed the reading of row `index`.
pub open spec fn is_feeding<A: FloatArith>(arith: &A, before: Seq<Atom>, index: usize, read: Read, after: Seq<Atom>) -> bool {
    &&& after.len() == before.len()
    &&& forall|i: int|
        0 <= i < before.len() ==> is_atom_step(arith, #[trigger] before[i], index, read, after[i])
}

/// Whether every atom can be handed the reading.
pub open spec fn suits_all(read: Read, atoms: Seq<Atom>) -> bool {
    forall|i: int| 0 <= i < atoms.len() ==> suits(read, #[trigger] atoms[i])
}

/// Whether atoms in states `before`, given the value of row `index`, can
/// end in states `after` with `outcome`. The value is read once for all
/// atoms and then handed to each. Where it cannot be read no atom sees it:
/// all stay as they were, and the error is the outcome.
pub open spec fn is_composite_step<A: FloatArith>(arith: &A, before: Seq<Atom>,
    index: usize,
    value: Option<Value>,
    after: Seq<Atom>,
    outcome: Result<(), CallError>,
) -> bool {
    match outcome {
        Ok(_) => exists|read: Read|
            #[trigger] is_reading(arith, before, value, Ok(read)) && is_feeding(arith, before, index, read, after),
        Err(e) => after == before && is_reading(arith, before, value, Err(e)),
    }
}

/// The atoms that one expression feeds: at most one of each kind, in the
/// order in which the kinds were first asked for.
#[derive(Debug, Clone)]
pub struct CompositeAggregator {
    methods: Vec<Aggregator>,
}

impl View for CompositeAggregator {
    type V = Seq<Atom>;

    closed spec fn view(&self) -> Seq<Atom> {
        Seq::new(self.methods@.len(), |i: int| self.methods@[i]@)
    }
}

impl CompositeAggregator {
    /// Every atom is valid and no kind occurs twice.
    pub closed spec fn wf(&self) -> bool {
        &&& forall|i: int| 0 <= i < self.methods@.len() ==> (#[trigger] self.methods@[i]).wf()
        &&& distinct_kinds(self@)
    }

    pub fn new() -> (r: Self)
        ensures
            r.wf(),
            r@ == Seq::<Atom>::empty(),
    {
        let r = Self { methods: Vec::new() };
        assert(r@ =~= Seq::<Atom>::empty());
        r
    }

    /// How many atoms are held.
    pub fn len(&self) -> (r: usize)
        ensures
            r == self@.len(),
    {
        self.methods.len()
    }

    /// Returns every atom to the state in which it was made.
    pub fn clear(&mut self)
        requires
            old(self).wf(),
        ensures
            final(self).wf(),
            same_kinds(final(self)@, old(self)@),
            all_fresh(final(self)@),
    {
        let mut i: usize = 0;
        while i < self.methods.len()
            invariant
                i <= self.methods@.len(),
                self.methods@.len() == old(self).methods@.len(),
                forall|j: int|
                    0 <= j < self.methods@.len() ==> (#[trigger] self.methods@[j])@.kind() == old(
                        self,
                    )@[j].kind(),
                forall|j: int| 0 <= j < self.methods@.len() ==> (#[trigger] self.methods@[j]).wf(),
                forall|j: int|
                    0 <= j < i ==> (#[trigger] self.methods@[j])@ == Atom::fresh(
                        self.methods@[j]@.kind(),
                    ),
            decreases self.methods@.len() - i,
        {
            let ghost before = self.methods@;
            self.methods[i].clear();
            proof {
                assert(self.methods@.len() == before.len());
                assert forall|j: int| 0 <= j < before.len() && j != i implies self.methods@[j]
                    == before[j] by {}
            }
            i += 1;
        }
        proof {
            lemma_kinds_stay_distinct(old(self)@, self@);
        }
    }

    /// The place of the atom that answers `method`. The atom is made and put
    /// last if no atom of its kind is held yet; else nothing changes.
    pub fn add_method(&mut self, method: &ConcreteAggregationMethod) -> (r: usize)
        requires
            old(self).wf(),
        ensures
            final(self).wf(),
            r < final(self)@.len(),
            final(self)@[r as int].kind() == method.spec_kind(),
            has_kind(old(self)@, method.spec_kind()) ==> final(self)@ == old(self)@,
            !has_kind(old(self)@, method.spec_kind()) ==> r == old(self)@.len() && final(self)@
                == old(self)@.push(Atom::fresh(method.spec_kind())),
    {
        let kind = method.kind();
        let mut i: usize = 0;
        while i < self.methods.len()
            invariant
                i <= self.methods@.len(),
                *self == *old(self),
                self.wf(),
                kind == method.spec_kind(),
                forall|j: int| 0 <= j < i ==> (#[trigger] self@[j]).kind() != kind,
            decreases self.methods@.len() - i,
        {
            if self.methods[i].kind() == kind {
                assert(self@[i as int].kind() == kind);
                return i;
            }
            i += 1;
        }
        let idx = self.methods.len();
        let ghost before = self@;
        self.methods.push(Aggregator::new(kind));
        proof {
            assert(self@ =~= before.push(Atom::fresh(kind)));
            assert forall|a: int, b: int| 0 <= a < b < self@.len() implies (#[trigger] self@[a]).kind()
                != (#[trigger] self@[b]).kind() by {
                if b < before.len() {
                    assert(before[a].kind() != before[b].kind());
                } else {
                    assert(self@[a] == before[a]);
                }
            }
        }
        idx
    }

    /// Whether some atom takes its values as numbers.
    pub fn takes_numbers(&self) -> (r: bool)
        ensures
            r == needs_number(self@),
    {
        let mut i: usize = 0;
        while i < self.methods.len()
            invariant
                i <= self.methods@.len(),
                forall|j: int|
                    0 <= j < i ==> !(#[trigger] self.methods@[j])@.kind().spec_takes_numbers(),
            decreases self.methods@.len() - i,
        {
            if self.methods[i].kind().takes_numbers() {
                assert(self@[i as int].kind().spec_takes_numbers());
                return true;
            }
            i += 1;
        }
        proof {
            if needs_number(self@) {
                let w = choose|w: int|
                    0 <= w < self@.len() && (#[trigger] self@[w]).kind().spec_takes_numbers();
                assert(self.methods@[w]@.kind().spec_takes_numbers());
            }
        }
        false
    }

    /// Reads the value of a row for the atoms: as a number, if it is not
    /// nullish and some atom takes numbers. Nothing is handed to the atoms
    /// yet.
    pub fn read<A: FloatArith>(&self, value_opt: Option<DynamicValue>, arith: &A) -> (r: Result<
        Reading,
        CallError,
    >)
        ensures
            match r {
                Ok(reading) => is_reading(arith, self@, optional_view(value_opt), Ok(reading@)),
                Err(e) => is_reading(arith, self@, optional_view(value_opt), Err(e)),
            },
    {
        let number = match &value_opt {
            Some(value) => {
                if !value.is_nullish() && self.takes_numbers() {
                    let number = value.try_as_number(arith);
                    assert(is_number_of(arith, value@, number));
                    match number {
                        Ok(n) => Some(n),
                        Err(e) => {
                            return Err(e);
                        },
                    }
                } else {
                    None
                }
            },
            None => None,
        };
        Ok(Reading { value: value_opt, number })
    }

    /// Hands every atom the reading of row `index`.
    pub fn feed<A: FloatArith>(&mut self, index: usize, reading: &Reading, arith: &A)
        requires
            old(self).wf(),
            atoms_count_at_most(old(self)@, (count_limit() - 1) as nat),
            suits_all(reading@, old(self)@),
        ensures
            final(self).wf(),
            same_kinds(final(self)@, old(self)@),
            is_feeding(arith, old(self)@, index, reading@, final(self)@),
            forall|bound: nat|
                atoms_count_at_most(old(self)@, bound) ==> #[trigger] atoms_count_at_most(
                    final(self)@,
                    bound + 1,
                ),
    {
        let mut i: usize = 0;
        proof {
            assert forall|j: int| 0 <= j < self.methods@.len() implies grows_by_one(
                old(self)@[j],
                (#[trigger] self.methods@[j])@,
            ) by {
                lemma_counts_grow(old(self)@[j]);
            }
        }
        while i < self.methods.len()
            invariant
                i <= self.methods@.len(),
                self.methods@.len() == old(self).methods@.len(),
                old(self)@.len() == old(self).methods@.len(),
                forall|j: int| 0 <= j < self.methods@.len() ==> (#[trigger] self.methods@[j]).wf(),
                forall|j: int|
                    0 <= j < self.methods@.len() ==> (#[trigger] self.methods@[j])@.kind() == old(
                        self,
                    )@[j].kind(),
                forall|j: int|
                    0 <= j < i ==> is_atom_step(arith, old(self)@[j],
                        index,
                        reading@,
                        (#[trigger] self.methods@[j])@,
                    ),
                forall|j: int|
                    i <= j < self.methods@.len() ==> (#[trigger] self.methods@[j])@ == old(
                        self,
                    )@[j],
                forall|j: int|
                    0 <= j < self.methods@.len() ==> grows_by_one(
                        old(self)@[j],
                        (#[trigger] self.methods@[j])@,
                    ),
                atoms_count_at_most(old(self)@, (count_limit() - 1) as nat),
                distinct_kinds(old(self)@),
                suits_all(reading@, old(self)@),
            decreases self.methods@.len() - i,
        {
            let ghost before = self.methods@;
            assert(before[i as int]@ == old(self)@[i as int]);
            assert(old(self)@[i as int].counts_at_most((count_limit() - 1) as nat));
            assert(suits(reading@, old(self)@[i as int]));
            self.methods[i].feed(index, reading, arith);
            proof {
                assert(self.methods@.len() == before.len());
                assert forall|j: int| 0 <= j < before.len() && j != i implies self.methods@[j]
                    == before[j] by {}
            }
            i += 1;
        }
        proof {
            lemma_kinds_stay_distinct(old(self)@, self@);
            lemma_counts_of_all(old(self)@, self@);
        }
    }

    /// Feeds every atom the value of row `index`, or the bare row where the
    /// unit has no expression; then only counts may be held. A value that
    /// cannot be read as the atoms need it is fed to none of them.
    pub fn process_value<A: FloatArith>(
        &mut self,
        index: usize,
        value_opt: Option<DynamicValue>,
        arith: &A,
    ) -> (r: Result<(), CallError>)
        requires
            old(self).wf(),
            atoms_count_at_most(old(self)@, (count_limit() - 1) as nat),
            value_opt is None ==> forall|i: int|
                0 <= i < old(self)@.len() ==> #[trigger] old(self)@[i] is Count,
        ensures
            final(self).wf(),
            same_kinds(final(self)@, old(self)@),
            is_composite_step(arith, old(self)@, index, optional_view(value_opt), final(self)@, r),
            forall|bound: nat|
                atoms_count_at_most(old(self)@, bound) ==> #[trigger] atoms_count_at_most(
                    final(self)@,
                    bound + 1,
                ),
    {
        let ghost value = optional_view(value_opt);
        match self.read(value_opt, arith) {
            Ok(reading) => {
                proof {
                    lemma_reading_suits(arith, self@, value, reading@);
                }
                self.feed(index, &reading, arith);
                proof {
                    assert(is_reading(arith, old(self)@, value, Ok(reading@)));
                }
                Ok(())
            },
            Err(e) => {
                proof {
                    lemma_kinds_stay_distinct(old(self)@, self@);
                    lemma_counts_same(self@);
                }
                Err(e)
            },
        }
    }

    /// Readies every atom for answering.
    pub fn finalize(&mut self)
        requires
            old(self).wf(),
        ensures
            final(self).wf(),
            same_kinds(final(self)@, old(self)@),
            forall|i: int|
                0 <= i < old(self)@.len() ==> (#[trigger] final(self)@[i]).is_finalized_from(
                    old(self)@[i],
                ),
    {
        let mut i: usize = 0;
        while i < self.methods.len()
            invariant
                i <= self.methods@.len(),
                self.methods@.len() == old(self).methods@.len(),
                old(self)@.len() == old(self).methods@.len(),
                forall|j: int| 0 <= j < self.methods@.len() ==> (#[trigger] self.methods@[j]).wf(),
                forall|j: int|
                    0 <= j < i ==> (#[trigger] self.methods@[j])@.is_finalized_from(old(self)@[j]),
                forall|j: int|
                    i <= j < self.methods@.len() ==> (#[trigger] self.methods@[j])@ == old(
                        self,
                    )@[j],
            decreases self.methods@.len() - i,
        {
            let ghost before = self.methods@;
            self.methods[i].finalize();
            proof {
                assert(self.methods@.len() == before.len());
                assert forall|j: int| 0 <= j < before.len() && j != i implies self.methods@[j]
                    == before[j] by {}
            }
            i += 1;
        }
        proof {
            assert forall|a: int| 0 <= a < self@.len() implies (#[trigger] self@[a]).kind() == (
            #[trigger] old(self)@[a]).kind() by {
                assert(self.methods@[a]@.is_finalized_from(old(self)@[a]));
            }
            lemma_kinds_stay_distinct(old(self)@, self@);
        }
    }

    /// What the atom at `handle` answers to `method`, which must be one of
    /// the methods that it serves.
    pub fn get_final_value<A: FloatArith>(
        &self,
        handle: usize,
        method: &ConcreteAggregationMethod,
        arith: &A,
    ) -> (r: DynamicValue)
        requires
            self.wf(),
            handle < self@.len(),
            self@[handle as int].kind() == method.spec_kind(),
            atoms_count_at_most(self@, count_limit()),
        ensures
            is_final_value(arith, self@[handle as int], *method, r@),
    {
        assert(self@[handle as int].counts_at_most(count_limit()));
        self.methods[handle].get_final_value(method, arith)
    }

    pub fn duplicate(&self) -> (r: Self)
        requires
            self.wf(),
        ensures
            r.wf(),
            r@ == self@,
    {
        let mut methods: Vec<Aggregator> = Vec::new();
        let mut i: usize = 0;
        while i < self.methods.len()
            invariant
                i <= self.methods@.len(),
                methods@.len() == i,
                self.wf(),
                forall|j: int| 0 <= j < i ==> (#[trigger] methods@[j])@ == self.methods@[j]@,
                forall|j: int| 0 <= j < i ==> (#[trigger] methods@[j]).wf(),
            decreases self.methods@.len() - i,
        {
            methods.push(self.methods[i].duplicate());
            i += 1;
        }
        let r = Self { methods };
        proof {
            assert(r@ =~= self@);
        }
        r
    }
}

impl CompositeAggregator {
    /// A valid composite aggregator holds no kind twice.
    pub proof fn lemma_distinct_kinds(&self)
        requires
            self.wf(),
        ensures
            distinct_kinds(self@),
    {
    }
}

/// Whatever bounds the counts of `before`, one more bounds those of `after`.
pub open spec fn grows_by_one(before: Atom, after: Atom) -> bool {
    forall|bound: nat| before.counts_at_most(bound) ==> #[trigger] after.counts_at_most(bound + 1)
}

/// A bound on the counts of an atom stays one when it is raised.
pub proof fn lemma_counts_grow(atom: Atom)
    ensures
        grows_by_one(atom, atom),
{
}

/// Where every atom's counts grew by one at most, so did those of all.
pub proof fn lemma_counts_of_all(before: Seq<Atom>, after: Seq<Atom>)
    requires
        before.len() == after.len(),
        forall|j: int| 0 <= j < before.len() ==> grows_by_one(before[j], #[trigger] after[j]),
    ensures
        forall|bound: nat|
            atoms_count_at_most(before, bound) ==> #[trigger] atoms_count_at_most(after, bound + 1),
{
    assert forall|bound: nat| atoms_count_at_most(before, bound) implies #[trigger] atoms_count_at_most(
        after,
        bound + 1,
    ) by {
        assert forall|j: int| 0 <= j < after.len() implies (#[trigger] after[j]).counts_at_most(
            bound + 1,
        ) by {
            assert(grows_by_one(before[j], after[j]));
            assert(before[j].counts_at_most(bound));
        }
    }
}

/// What was read for atoms can be handed to each of them, if only counts
/// are held where there is no value.
pub proof fn lemma_reading_suits<A: FloatArith>(
    arith: &A,
    atoms: Seq<Atom>,
    value: Option<Value>,
    read: Read,
)
    requires
        is_reading(arith, atoms, value, Ok(read)),
        value is None ==> forall|i: int| 0 <= i < atoms.len() ==> #[trigger] atoms[i] is Count,
    ensures
        suits_all(read, atoms),
{
    assert forall|i: int| 0 <= i < atoms.len() implies suits(read, #[trigger] atoms[i]) by {
        if read.value matches Some(v) && !v.is_nullish() && atoms[i].kind().spec_takes_numbers() {
            assert(needs_number(atoms));
        }
    }
}

/// A bound on the counts of atoms stays one when it is raised.
pub proof fn lemma_counts_same(atoms: Seq<Atom>)
    ensures
        forall|bound: nat|
            atoms_count_at_most(atoms, bound) ==> #[trigger] atoms_count_at_most(atoms, bound + 1),
{
    assert forall|j: int| 0 <= j < atoms.len() implies grows_by_one(atoms[j], #[trigger] atoms[j]) by {
        lemma_counts_grow(atoms[j]);
    }
    lemma_counts_of_all(atoms, atoms);
}

/// Atoms that keep their kinds keep them distinct.
pub proof fn lemma_kinds_stay_distinct(before: Seq<Atom>, after: Seq<Atom>)
    requires
        distinct_kinds(before),
        same_kinds(after, before),
    ensures
        distinct_kinds(after),
{
    assert forall|i: int, j: int| 0 <= i < j < after.len() implies (#[trigger] after[i]).kind() != (
    #[trigger] after[j]).kind() by {
        assert(before[i].kind() != before[j].kind());
    }
}

} // verus!
