//! Binding expressions to the columns of a header, and evaluating bound
//! expressions against records.

use vstd::prelude::*;
use vstd::string::StringSliceAdditionalSpecFns;
use vstd::wrapping::i64_specs::{wrapping_add, wrapping_mul, wrapping_sub};
use csv::ByteRecord;
use crate::error::{
    Arity, CallError, ConcretizationError, EvaluationError, Fault, SpecifiedCallError,
};
use crate::number::{
    comparison_of, is_difference, is_float_of, is_parsing, is_product, is_quotient, is_sum,
    Comparison,
    DynamicNumber, Float, FloatArith, SIGN_BIT,
};
use crate::parser::{Expr, Syntax};
use crate::record::{record_fields, record_get, record_len};
use crate::text::{bytes_eq, copy_bytes};
use crate::value::{is_number_of, is_text_of, DynamicValue, Value};

verus! {

/// A built-in function of the expression language.
#[derive(Clone, Copy, Debug, PartialEq, Eq, Structural)]
pub enum Function {
    Plus,
    Minus,
    Times,
    Divide,
    Negate,
    Equal,
    NotEqual,
    Less,
    LessOrEqual,
    Greater,
    GreaterOrEqual,
    Not,
    And,
    Or,
    Concat,
    Length,
    Coalesce,
}

/// The function that a name stands for.
pub open spec fn function_named(name: Seq<u8>) -> Option<Function> {
    if name == "add".spec_bytes() {
        Some(Function::Plus)
    } else if name == "sub".spec_bytes() {
        Some(Function::Minus)
    } else if name == "mul".spec_bytes() {
        Some(Function::Times)
    } else if name == "div".spec_bytes() {
        Some(Function::Divide)
    } else if name == "neg".spec_bytes() {
        Some(Function::Negate)
    } else if name == "eq".spec_bytes() {
        Some(Function::Equal)
    } else if name == "ne".spec_bytes() {
        Some(Function::NotEqual)
    } else if name == "lt".spec_bytes() {
        Some(Function::Less)
    } else if name == "le".spec_bytes() {
        Some(Function::LessOrEqual)
    } else if name == "gt".spec_bytes() {
        Some(Function::Greater)
    } else if name == "ge".spec_bytes() {
        Some(Function::GreaterOrEqual)
    } else if name == "not".spec_bytes() {
        Some(Function::Not)
    } else if name == "and".spec_bytes() {
        Some(Function::And)
    } else if name == "or".spec_bytes() {
        Some(Function::Or)
    } else if name == "concat".spec_bytes() {
        Some(Function::Concat)
    } else if name == "len".spec_bytes() {
        Some(Function::Length)
    } else if name == "coalesce".spec_bytes() {
        Some(Function::Coalesce)
    } else {
        None
    }
}

impl Function {
    /// The name under which the function is called.
    pub open spec fn spec_name(self) -> Seq<u8> {
        match self {
            Function::Plus => "add".spec_bytes(),
            Function::Minus => "sub".spec_bytes(),
            Function::Times => "mul".spec_bytes(),
            Function::Divide => "div".spec_bytes(),
            Function::Negate => "neg".spec_bytes(),
            Function::Equal => "eq".spec_bytes(),
            Function::NotEqual => "ne".spec_bytes(),
            Function::Less => "lt".spec_bytes(),
            Function::LessOrEqual => "le".spec_bytes(),
            Function::Greater => "gt".spec_bytes(),
            Function::GreaterOrEqual => "ge".spec_bytes(),
            Function::Not => "not".spec_bytes(),
            Function::And => "and".spec_bytes(),
            Function::Or => "or".spec_bytes(),
            Function::Concat => "concat".spec_bytes(),
            Function::Length => "len".spec_bytes(),
            Function::Coalesce => "coalesce".spec_bytes(),
        }
    }

    /// How many arguments the function takes.
    pub open spec fn spec_arity(self) -> Arity {
        match self {
            Function::Negate | Function::Not | Function::Length => Arity::Strict(1),
            _ => Arity::Strict(2),
        }
    }

    pub fn name(self) -> (r: Vec<u8>)
        ensures
            r@ == self.spec_name(),
    {
        let text = match self {
            Function::Plus => "add",
            Function::Minus => "sub",
            Function::Times => "mul",
            Function::Divide => "div",
            Function::Negate => "neg",
            Function::Equal => "eq",
            Function::NotEqual => "ne",
            Function::Less => "lt",
            Function::LessOrEqual => "le",
            Function::Greater => "gt",
            Function::GreaterOrEqual => "ge",
            Function::Not => "not",
            Function::And => "and",
            Function::Or => "or",
            Function::Concat => "concat",
            Function::Length => "len",
            Function::Coalesce => "coalesce",
        };
        copy_bytes(text.as_bytes())
    }

    #[verifier::when_used_as_spec(spec_arity)]
    pub fn arity(self) -> (r: Arity)
        ensures
            r == self.spec_arity(),
    {
        match self {
            Function::Negate | Function::Not | Function::Length => Arity::Strict(1),
            _ => Arity::Strict(2),
        }
    }

    /// The function that `name` stands for, if any.
    pub fn parse(name: &[u8]) -> (r: Option<Function>)
        ensures
            r == function_named(name@),
    {
        if bytes_eq(name, "add".as_bytes()) {
            Some(Function::Plus)
        } else if bytes_eq(name, "sub".as_bytes()) {
            Some(Function::Minus)
        } else if bytes_eq(name, "mul".as_bytes()) {
            Some(Function::Times)
        } else if bytes_eq(name, "div".as_bytes()) {
            Some(Function::Divide)
        } else if bytes_eq(name, "neg".as_bytes()) {
            Some(Function::Negate)
        } else if bytes_eq(name, "eq".as_bytes()) {
            Some(Function::Equal)
        } else if bytes_eq(name, "ne".as_bytes()) {
            Some(Function::NotEqual)
        } else if bytes_eq(name, "lt".as_bytes()) {
            Some(Function::Less)
        } else if bytes_eq(name, "le".as_bytes()) {
            Some(Function::LessOrEqual)
        } else if bytes_eq(name, "gt".as_bytes()) {
            Some(Function::Greater)
        } else if bytes_eq(name, "ge".as_bytes()) {
            Some(Function::GreaterOrEqual)
        } else if bytes_eq(name, "not".as_bytes()) {
            Some(Function::Not)
        } else if bytes_eq(name, "and".as_bytes()) {
            Some(Function::And)
        } else if bytes_eq(name, "or".as_bytes()) {
            Some(Function::Or)
        } else if bytes_eq(name, "concat".as_bytes()) {
            Some(Function::Concat)
        } else if bytes_eq(name, "len".as_bytes()) {
            Some(Function::Length)
        } else if bytes_eq(name, "coalesce".as_bytes()) {
            Some(Function::Coalesce)
        } else {
            None
        }
    }
}

/// An expression bound to the columns of a header.
#[derive(Debug, PartialEq, Eq)]
pub enum ConcreteArgument {
    /// The field of the record at this index.
    Column(usize),
    Integer(i64),
    Float(Float),
    String(Vec<u8>),
    Boolean(bool),
    Null,
    Call(Function, Vec<ConcreteArgument>),
}

/// What a [`ConcreteArgument`] holds.
pub enum Bound {
    Column(usize),
    Integer(i64),
    Float(Float),
    String(Seq<u8>),
    Boolean(bool),
    Null,
    Call(Function, Seq<Bound>),
}

impl View for ConcreteArgument {
    type V = Bound;

    open spec fn view(&self) -> Bound {
        self.bound()
    }
}

impl ConcreteArgument {
    /// The tree that the argument holds.
    pub open spec fn bound(&self) -> Bound
        decreases self, 0nat,
    {
        match self {
            ConcreteArgument::Column(index) => Bound::Column(*index),
            ConcreteArgument::Integer(value) => Bound::Integer(*value),
            ConcreteArgument::Float(value) => Bound::Float(*value),
            ConcreteArgument::String(content) => Bound::String(content@),
            ConcreteArgument::Boolean(value) => Bound::Boolean(*value),
            ConcreteArgument::Null => Bound::Null,
            ConcreteArgument::Call(function, args) => Bound::Call(
                *function,
                leading_bounds(args, args@.len()),
            ),
        }
    }
}

/// The trees of the first `count` of the arguments.
pub open spec fn leading_bounds(args: &Vec<ConcreteArgument>, count: nat) -> Seq<Bound>
    decreases args, count,
{
    if count == 0 || count > args@.len() {
        Seq::empty()
    } else {
        leading_bounds(args, (count - 1) as nat).push(args@[count - 1].bound())
    }
}

/// The trees that a sequence of arguments holds.
pub open spec fn bounds_of(args: Seq<ConcreteArgument>) -> Seq<Bound> {
    Seq::new(args.len(), |i: int| args[i]@)
}

/// The leading trees are the trees of the leading arguments.
pub proof fn lemma_leading_bounds(args: &Vec<ConcreteArgument>, count: nat)
    requires
        count <= args@.len(),
    ensures
        leading_bounds(args, count) == bounds_of(args@.take(count as int)),
    decreases count,
{
    if count > 0 {
        lemma_leading_bounds(args, (count - 1) as nat);
        assert(args@.take(count as int).take(count - 1) =~= args@.take(count - 1));
        assert(bounds_of(args@.take(count as int)) =~= bounds_of(args@.take(count - 1)).push(
            args@[count - 1]@,
        ));
    } else {
        assert(bounds_of(args@.take(0)) =~= Seq::<Bound>::empty());
    }
}

/// The tree of a call is made of the trees of its arguments.
pub proof fn lemma_bound_call(function: Function, args: Vec<ConcreteArgument>)
    ensures
        ConcreteArgument::Call(function, args)@ == Bound::Call(function, bounds_of(args@)),
{
    lemma_leading_bounds(&args, args@.len());
    assert(args@.take(args@.len() as int) =~= args@);
}

impl Bound {
    /// The expression fits records of the given width: every column that it
    /// reads lies below the width, and every call has as many arguments as
    /// its function takes.
    pub open spec fn fits(self, width: nat) -> bool
        decreases self,
    {
        match self {
            Bound::Column(index) => index < width,
            Bound::Call(function, args) => function.spec_arity().accepts(args.len()) && forall|
                i: int,
            |
                0 <= i < args.len() ==> (#[trigger] args[i]).fits(width),
            _ => true,
        }
    }
}

/// The index of the first of the `names` from `from` on that is `name`.
pub open spec fn first_named(names: Seq<Seq<u8>>, name: Seq<u8>, from: int) -> Option<int>
    decreases names.len() - from,
{
    if from < 0 || from >= names.len() {
        None
    } else if names[from] == name {
        Some(from)
    } else {
        first_named(names, name, from + 1)
    }
}

/// What an expression that could not be bound to a header was rejected for.
pub enum Rejection {
    ParseError(Seq<u8>),
    UnknownIdentifier(Seq<u8>),
    UnknownFunction(Seq<u8>),
    InvalidArity { name: Seq<u8>, expected: Arity, got: nat },
}

impl View for ConcretizationError {
    type V = Rejection;

    open spec fn view(&self) -> Rejection {
        match self {
            ConcretizationError::ParseError(source) => Rejection::ParseError(source@),
            ConcretizationError::UnknownIdentifier(name) => Rejection::UnknownIdentifier(name@),
            ConcretizationError::UnknownFunction(name) => Rejection::UnknownFunction(name@),
            ConcretizationError::InvalidArity { name, expected, got } => Rejection::InvalidArity {
                name: name@,
                expected: *expected,
                got: *got as nat,
            },
        }
    }
}

/// What binding an expression to a header comes to, where no binary64
/// numeral has to be rounded: a column name becomes the index of the first
/// column of that name, a call the call of the function of that name on its
/// bound arguments. The first thing that is wrong, reading from left to
/// right, is the error: a name that no column bears, a name that no function
/// bears, a call with the wrong number of arguments. Where the expression
/// holds the numeral of a binary64 value the result is left open here;
/// [`is_binding`] says what it is for every expression.
pub open spec fn fixed_binding(syntax: Syntax, headers: Seq<Seq<u8>>) -> Option<
    Result<Bound, Rejection>,
>
    decreases syntax, 0nat,
{
    match syntax {
        Syntax::Identifier(name) => match first_named(headers, name, 0) {
            Some(index) => if index <= usize::MAX {
                Some(Ok(Bound::Column(index as usize)))
            } else {
                None
            },
            None => Some(Err(Rejection::UnknownIdentifier(name))),
        },
        Syntax::Integer(value) => Some(Ok(Bound::Integer(value))),
        Syntax::Float(_) => None,
        Syntax::String(content) => Some(Ok(Bound::String(content))),
        Syntax::Boolean(value) => Some(Ok(Bound::Boolean(value))),
        Syntax::Null => Some(Ok(Bound::Null)),
        Syntax::Call(name, args) => match function_named(name) {
            None => Some(Err(Rejection::UnknownFunction(name))),
            Some(function) => if !function.spec_arity().accepts(args.len()) {
                Some(
                    Err(
                        Rejection::InvalidArity {
                            name,
                            expected: function.spec_arity(),
                            got: args.len(),
                        },
                    ),
                )
            } else {
                match fixed_bindings(args, headers, 0) {
                    Some(Ok(bound)) => Some(Ok(Bound::Call(function, bound))),
                    Some(Err(e)) => Some(Err(e)),
                    None => None,
                }
            },
        },
    }
}

/// What binding the expressions from `from` on comes to, in turn.
pub open spec fn fixed_bindings(args: Seq<Syntax>, headers: Seq<Seq<u8>>, from: nat) -> Option<
    Result<Seq<Bound>, Rejection>,
>
    decreases args, args.len() - from,
{
    if from >= args.len() {
        Some(Ok(Seq::empty()))
    } else {
        match fixed_binding(args[from as int], headers) {
            Some(Ok(first)) => match fixed_bindings(args, headers, from + 1) {
                Some(Ok(rest)) => Some(Ok(seq![first] + rest)),
                Some(Err(e)) => Some(Err(e)),
                None => None,
            },
            Some(Err(e)) => Some(Err(e)),
            None => None,
        }
    }
}

/// Whether the answer `r` of a binding agrees with what is fixed of it.
pub open spec fn agrees_with_binding(
    r: Result<ConcreteArgument, ConcretizationError>,
    fixed: Option<Result<Bound, Rejection>>,
) -> bool {
    match fixed {
        Some(Ok(bound)) => r matches Ok(argument) && argument@ == bound,
        Some(Err(rejection)) => r matches Err(error) && error@ == rejection,
        None => true,
    }
}

/// The answer of a binding, over views.
pub open spec fn binding_view(r: Result<ConcreteArgument, ConcretizationError>) -> Result<
    Bound,
    Rejection,
> {
    match r {
        Ok(argument) => Ok(argument@),
        Err(error) => Err(error@),
    }
}

/// Whether `r` is what the numeral of a binary64 value is bound to: the
/// value that `arith` reads it as, or the error where `arith` reads none.
pub open spec fn is_numeral_binding<A: FloatArith>(
    arith: &A,
    numeral: Seq<u8>,
    r: Result<Bound, Rejection>,
) -> bool {
    exists|answer: Option<Float>| #[trigger]
        is_parsing(arith, numeral, answer) && r == match answer {
            Some(value) => Ok::<Bound, Rejection>(Bound::Float(value)),
            None => Err::<Bound, Rejection>(Rejection::ParseError(numeral)),
        }
}

/// Whether `r` is what binding an expression to a header comes to, for
/// every expression. A column name becomes the index of the first column of
/// that name, where a machine index can count it; the numeral of a binary64
/// value becomes the value that `arith` reads it as, or is the error where
/// `arith` reads none; a call becomes the call of the function of that name
/// on its bound arguments. The first thing that is wrong, reading from left
/// to right, is the error.
pub open spec fn is_binding<A: FloatArith>(
    arith: &A,
    syntax: Syntax,
    headers: Seq<Seq<u8>>,
    r: Result<Bound, Rejection>,
) -> bool
    decreases syntax, 0nat,
{
    match syntax {
        Syntax::Identifier(name) => match first_named(headers, name, 0) {
            Some(index) => index <= usize::MAX ==> r == Ok::<Bound, Rejection>(
                Bound::Column(index as usize),
            ),
            None => r == Err::<Bound, Rejection>(Rejection::UnknownIdentifier(name)),
        },
        Syntax::Float(numeral) => is_numeral_binding(arith, numeral, r),
        Syntax::Call(name, args) => match function_named(name) {
            None => r == Err::<Bound, Rejection>(Rejection::UnknownFunction(name)),
            Some(function) => if !function.spec_arity().accepts(args.len()) {
                r == Err::<Bound, Rejection>(
                    Rejection::InvalidArity {
                        name,
                        expected: function.spec_arity(),
                        got: args.len(),
                    },
                )
            } else {
                exists|bound: Seq<Bound>|
                    #![trigger bound.len()]
                    are_bindings(arith, args, headers, bound) && if bound.len() >= args.len() {
                        r == Ok::<Bound, Rejection>(Bound::Call(function, bound))
                    } else {
                        r is Err && is_binding(arith, args[bound.len() as int], headers, r)
                    }
            },
        },
        _ => Some(r) == fixed_binding(syntax, headers),
    }
}

/// Whether `bound` are what the leading expressions of `args` are bound to,
/// one for one.
pub open spec fn are_bindings<A: FloatArith>(
    arith: &A,
    args: Seq<Syntax>,
    headers: Seq<Seq<u8>>,
    bound: Seq<Bound>,
) -> bool
    decreases args, 1nat,
{
    bound.len() <= args.len() && forall|j: int|
        0 <= j < bound.len() && j < args.len() ==> is_binding(
            arith,
            args[j],
            headers,
            Ok(#[trigger] bound[j]),
        )
}

/// Finds the first column that bears `name`.
pub fn find_column(headers: &ByteRecord, name: &[u8]) -> (r: Option<usize>)
    ensures
        match r {
            Some(index) => first_named(record_fields(*headers), name@, 0) == Some(index as int)
                && index < record_fields(*headers).len(),
            None => first_named(record_fields(*headers), name@, 0) is None,
        },
{
    let count = record_len(headers);
    let mut i: usize = 0;
    while i < count
        invariant
            i <= count,
            count == record_fields(*headers).len(),
            first_named(record_fields(*headers), name@, 0) == first_named(
                record_fields(*headers),
                name@,
                i as int,
            ),
        decreases count - i,
    {
        match record_get(headers, i) {
            Some(field) => {
                if bytes_eq(field, name) {
                    return Some(i);
                }
            },
            None => {},
        }
        i += 1;
    }
    None
}

/// Binds an expression to the columns of a header.
pub fn concretize_expression<A: FloatArith>(expr: &Expr, headers: &ByteRecord, arith: &A) -> (r:
    Result<ConcreteArgument, ConcretizationError>)
    ensures
        is_binding(arith, expr@, record_fields(*headers), binding_view(r)),
        agrees_with_binding(r, fixed_binding(expr@, record_fields(*headers))),
        r matches Ok(argument) ==> argument@.fits(record_fields(*headers).len()),
    decreases expr,
{
    match expr {
        Expr::Identifier(name) => match find_column(headers, name.as_slice()) {
            Some(index) => Ok(ConcreteArgument::Column(index)),
            None => Err(ConcretizationError::UnknownIdentifier(copy_bytes(name.as_slice()))),
        },
        Expr::Integer(value) => Ok(ConcreteArgument::Integer(*value)),
        Expr::Float(numeral) => {
            let source = numeral.as_slice();
            let answer = arith.parse(source);
            assert(is_parsing(arith, numeral@, answer)) by {
                assert(source@ == numeral@ && call_ensures(A::parse, (arith, source), answer));
            }
            let bound = match answer {
                Some(value) => Ok(ConcreteArgument::Float(value)),
                None => Err(ConcretizationError::ParseError(copy_bytes(source))),
            };
            assert(binding_view(bound) == match answer {
                Some(value) => Ok::<Bound, Rejection>(Bound::Float(value)),
                None => Err::<Bound, Rejection>(Rejection::ParseError(numeral@)),
            });
            assert(is_numeral_binding(arith, numeral@, binding_view(bound)));
            bound
        },
        Expr::String(content) => Ok(ConcreteArgument::String(copy_bytes(content.as_slice()))),
        Expr::Boolean(value) => Ok(ConcreteArgument::Boolean(*value)),
        Expr::Null => Ok(ConcreteArgument::Null),
        Expr::Call(name, args) => {
            proof {
                crate::parser::lemma_call_view(*name, *args);
            }
            let ghost trees = crate::parser::syntax_of(args@);
            let ghost fields = record_fields(*headers);
            match Function::parse(name.as_slice()) {
                None => Err(ConcretizationError::UnknownFunction(copy_bytes(name.as_slice()))),
                Some(function) => {
                    let expected = function.arity();
                    let accepted = match expected {
                        Arity::Strict(n) => args.len() == n,
                        Arity::Range(low, high) => low <= args.len() && args.len() <= high,
                    };
                    if !accepted {
                        return Err(
                            ConcretizationError::InvalidArity {
                                name: copy_bytes(name.as_slice()),
                                expected,
                                got: args.len(),
                            },
                        );
                    }
                    let mut bound: Vec<ConcreteArgument> = Vec::new();
                    let mut i: usize = 0;
                    proof {
                        assert(bounds_of(bound@) =~= Seq::<Bound>::empty());
                        match fixed_bindings(trees, fields, 0) {
                            Some(Ok(rest)) => {
                                assert(bounds_of(bound@) + rest =~= rest);
                            },
                            _ => {},
                        }
                    }
                    while i < args.len()
                        invariant
                            i <= args.len(),
                            bound@.len() == i,
                            trees == crate::parser::syntax_of(args@),
                            fields == record_fields(*headers),
                            expr@ == Syntax::Call(name@, trees),
                            function_named(name@) == Some(function),
                            function.spec_arity().accepts(trees.len()),
                            expr matches Expr::Call(_, a) && a == args,
                            forall|j: int|
                                0 <= j < i ==> (#[trigger] bound@[j])@.fits(fields.len()),
                            are_bindings(arith, trees, fields, bounds_of(bound@)),
                            match fixed_bindings(trees, fields, 0) {
                                Some(Ok(all)) => fixed_bindings(trees, fields, i as nat) matches Some(
                                    Ok(rest),
                                ) && all == bounds_of(bound@) + rest,
                                Some(Err(e)) => fixed_bindings(trees, fields, i as nat) == Some(
                                    Err::<Seq<Bound>, Rejection>(e),
                                ),
                                None => true,
                            },
                        decreases args.len() - i,
                    {
                        let ghost before = bounds_of(bound@);
                        assert(trees[i as int] == args@[i as int]@);
                        match concretize_expression(&args[i], headers, arith) {
                            Ok(argument) => {
                                let ghost tree = argument@;
                                bound.push(argument);
                                proof {
                                    assert(bounds_of(bound@) =~= before + seq![tree]);
                                    assert forall|j: int|
                                        0 <= j < bounds_of(bound@).len() && j
                                            < trees.len() implies is_binding(
                                        arith,
                                        trees[j],
                                        fields,
                                        Ok(#[trigger] bounds_of(bound@)[j]),
                                    ) by {
                                        if j < i {
                                            assert(bounds_of(bound@)[j] == before[j]);
                                        }
                                    }
                                    match fixed_bindings(trees, fields, (i + 1) as nat) {
                                        Some(Ok(rest)) => {
                                            assert(before + (seq![tree] + rest) =~= bounds_of(
                                                bound@,
                                            ) + rest);
                                        },
                                        _ => {},
                                    }
                                }
                            },
                            Err(e) => {
                                proof {
                                    let here = fixed_binding(trees[i as int], fields);
                                    let onward = fixed_bindings(trees, fields, i as nat);
                                    assert(here is None ==> onward is None);
                                    assert(here matches Some(Err(rejection)) ==> onward == Some(
                                        Err::<Seq<Bound>, Rejection>(rejection),
                                    ));
                                    assert(are_bindings(arith, trees, fields, before));
                                    assert(before.len() == i);
                                    assert(is_binding(
                                        arith,
                                        trees[i as int],
                                        fields,
                                        Err(e@),
                                    ));
                                }
                                return Err(e);
                            },
                        }
                        i += 1;
                    }
                    proof {
                        lemma_bound_call(function, bound);
                        assert(are_bindings(arith, trees, fields, bounds_of(bound@)));
                        assert(bounds_of(bound@).len() == trees.len());
                        assert(is_binding(
                            arith,
                            Syntax::Call(name@, trees),
                            fields,
                            Ok(Bound::Call(function, bounds_of(bound@))),
                        ));
                        match fixed_bindings(trees, fields, 0) {
                            Some(Ok(all)) => {
                                assert(all =~= bounds_of(bound@));
                            },
                            _ => {},
                        }
                        assert forall|j: int| 0 <= j < bounds_of(bound@).len() implies (
                        #[trigger] bounds_of(bound@)[j]).fits(fields.len()) by {
                            assert(bound@[j]@.fits(fields.len()));
                        }
                    }
                    Ok(ConcreteArgument::Call(function, bound))
                },
            }
        },
    }
}

/// The truth value of a comparison under a comparing function.
pub open spec fn comparison_holds(function: Function, comparison: Comparison) -> bool {
    match function {
        Function::Equal => comparison == Comparison::Equal,
        Function::NotEqual => comparison != Comparison::Equal,
        Function::Less => comparison == Comparison::Less,
        Function::LessOrEqual => comparison != Comparison::Greater,
        Function::Greater => comparison == Comparison::Greater,
        _ => comparison != Comparison::Less,
    }
}

/// What two integers come to under an arithmetic function. Integers add,
/// subtract and multiply as machine integers do, wrapping around at the ends
/// of their range; a quotient is a binary64 value and left open.
pub open spec fn integer_arithmetic(function: Function, a: i64, b: i64) -> Option<i64> {
    match function {
        Function::Plus => Some(wrapping_add(a, b)),
        Function::Minus => Some(wrapping_sub(a, b)),
        Function::Times => Some(wrapping_mul(a, b)),
        _ => None,
    }
}

/// What a function answers to its arguments, where no binary64 value has to
/// be rounded, read or written.
///
/// Arithmetic and comparison read their arguments as numbers, the left one
/// first; an argument that is no number is the error. Arithmetic on two
/// integers stays in integers, but for division. Numbers compare by their
/// place in the total order. The connectives go by truth, nothing is
/// short-circuited. `concat` joins the texts of its arguments and `len`
/// measures the text of its argument in bytes; a length that no integer
/// holds is out of range. `coalesce` is its first argument unless that is
/// nullish, and else its second.
pub open spec fn fixed_call(function: Function, args: Seq<Value>) -> Option<
    Result<Value, CallError>,
> {
    match function {
        Function::Plus | Function::Minus | Function::Times | Function::Divide => {
            match args[0].fixed_number() {
                Some(Ok(a)) => match args[1].fixed_number() {
                    Some(Ok(b)) => match (a, b) {
                        (
                            DynamicNumber::Integer(x),
                            DynamicNumber::Integer(y),
                        ) => match integer_arithmetic(function, x, y) {
                            Some(z) => Some(Ok(Value::Integer(z))),
                            None => None,
                        },
                        _ => None,
                    },
                    Some(Err(e)) => Some(Err(e)),
                    None => None,
                },
                Some(Err(e)) => Some(Err(e)),
                None => None,
            }
        },
        Function::Negate => match args[0].fixed_number() {
            Some(Ok(DynamicNumber::Integer(x))) => Some(Ok(Value::Integer(wrapping_sub(0, x)))),
            Some(Ok(DynamicNumber::Float(f))) => Some(
                Ok(
                    Value::Float(
                        Float {
                            bits: if f.bits >= SIGN_BIT {
                                (f.bits - SIGN_BIT) as u64
                            } else {
                                (f.bits + SIGN_BIT) as u64
                            },
                        },
                    ),
                ),
            ),
            Some(Err(e)) => Some(Err(e)),
            None => None,
        },
        Function::Equal
        | Function::NotEqual
        | Function::Less
        | Function::LessOrEqual
        | Function::Greater
        | Function::GreaterOrEqual => match args[0].fixed_number() {
            Some(Ok(a)) => match args[1].fixed_number() {
                Some(Ok(b)) => Some(
                    Ok(Value::Boolean(comparison_holds(function, comparison_of(a.key(), b.key())))),
                ),
                Some(Err(e)) => Some(Err(e)),
                None => None,
            },
            Some(Err(e)) => Some(Err(e)),
            None => None,
        },
        Function::Not => Some(Ok(Value::Boolean(!args[0].is_truthy()))),
        Function::And => Some(Ok(Value::Boolean(args[0].is_truthy() && args[1].is_truthy()))),
        Function::Or => Some(Ok(Value::Boolean(args[0].is_truthy() || args[1].is_truthy()))),
        Function::Concat => match (args[0].fixed_text(), args[1].fixed_text()) {
            (Some(a), Some(b)) => Some(Ok(Value::String(a + b))),
            _ => None,
        },
        Function::Length => match args[0].fixed_text() {
            Some(a) => if a.len() <= i64::MAX {
                Some(Ok(Value::Integer(a.len() as i64)))
            } else {
                Some(Err(CallError::IndexOutOfRange))
            },
            None => None,
        },
        Function::Coalesce => Some(
            Ok(
                if args[0].is_nullish() {
                    args[1]
                } else {
                    args[0]
                },
            ),
        ),
    }
}

/// Whether the answer `r` of a call agrees with what is fixed of it.
pub open spec fn agrees_with_call(
    r: Result<DynamicValue, CallError>,
    fixed: Option<Result<Value, CallError>>,
) -> bool {
    match fixed {
        Some(Ok(value)) => r matches Ok(answer) && answer@ == value,
        Some(Err(reason)) => r == Err::<DynamicValue, CallError>(reason),
        None => true,
    }
}
/// Whether `r` is what the two values read as numbers come to, the first
/// before the second: the first that is no number is the error.
pub open spec fn is_number_pair<A: FloatArith>(
    arith: &A,
    a: Value,
    b: Value,
    r: Result<(DynamicNumber, DynamicNumber), CallError>,
) -> bool {
    exists|first: Result<DynamicNumber, CallError>|
        #[trigger] is_number_of(arith, a, first) && match first {
            Err(e) => r == Err::<(DynamicNumber, DynamicNumber), CallError>(e),
            Ok(x) => exists|second: Result<DynamicNumber, CallError>|
                #[trigger] is_number_of(arith, b, second) && match second {
                    Err(e) => r == Err::<(DynamicNumber, DynamicNumber), CallError>(e),
                    Ok(y) => r == Ok::<(DynamicNumber, DynamicNumber), CallError>((x, y)),
                },
        }
}

/// Whether `r` is what the arithmetic answers for the operation `function`
/// on two binary64 values.
pub open spec fn is_operation<A: FloatArith>(
    arith: &A,
    function: Function,
    a: Float,
    b: Float,
    r: Float,
) -> bool {
    match function {
        Function::Plus => is_sum(arith, a, b, r),
        Function::Minus => is_difference(arith, a, b, r),
        Function::Times => is_product(arith, a, b, r),
        _ => is_quotient(arith, a, b, r),
    }
}

/// Whether `r` is the result of `+`, `-`, `*` or `/` on two numbers: on two
/// integers the wrapping result, but for `/`; else what the arithmetic
/// answers for the operation on the two numbers as binary64 values.
pub open spec fn is_arithmetic<A: FloatArith>(
    arith: &A,
    function: Function,
    a: DynamicNumber,
    b: DynamicNumber,
    r: Value,
) -> bool {
    if a is Integer && b is Integer && !(function is Divide) {
        Some(r) == match integer_arithmetic(function, a->Integer_0, b->Integer_0) {
            Some(z) => Some(Value::Integer(z)),
            None => None,
        }
    } else {
        r is Float && exists|left: Float, right: Float|
            #![trigger is_float_of(arith, a, left), is_float_of(arith, b, right)]
            is_float_of(arith, a, left) && is_float_of(arith, b, right) && is_operation(
                arith,
                function,
                left,
                right,
                r->Float_0,
            )
    }
}

/// Whether `r` is what applying `function` to `args` comes to, for every
/// function and every value: numbers are read and binary64 values are added,
/// written and rounded as `arith` answers.
pub open spec fn is_call<A: FloatArith>(
    arith: &A,
    function: Function,
    args: Seq<Value>,
    r: Result<Value, CallError>,
) -> bool {
    match function {
        Function::Plus | Function::Minus | Function::Times | Function::Divide => exists|
            pair: Result<(DynamicNumber, DynamicNumber), CallError>,
        |
            #[trigger] is_number_pair(arith, args[0], args[1], pair) && match pair {
                Err(e) => r == Err::<Value, CallError>(e),
                Ok((x, y)) => r is Ok && is_arithmetic(arith, function, x, y, r->Ok_0),
            },
        Function::Negate => exists|number: Result<DynamicNumber, CallError>|
            #[trigger] is_number_of(arith, args[0], number) && r == match number {
                Err(e) => Err::<Value, CallError>(e),
                Ok(DynamicNumber::Integer(x)) => Ok(Value::Integer(wrapping_sub(0, x))),
                Ok(DynamicNumber::Float(f)) => Ok(
                    Value::Float(
                        Float {
                            bits: if f.bits >= SIGN_BIT {
                                (f.bits - SIGN_BIT) as u64
                            } else {
                                (f.bits + SIGN_BIT) as u64
                            },
                        },
                    ),
                ),
            },
        Function::Equal
        | Function::NotEqual
        | Function::Less
        | Function::LessOrEqual
        | Function::Greater
        | Function::GreaterOrEqual => exists|
            pair: Result<(DynamicNumber, DynamicNumber), CallError>,
        |
            #[trigger] is_number_pair(arith, args[0], args[1], pair) && r == match pair {
                Err(e) => Err::<Value, CallError>(e),
                Ok((x, y)) => Ok(
                    Value::Boolean(comparison_holds(function, comparison_of(x.key(), y.key()))),
                ),
            },
        Function::Concat => exists|first: Seq<u8>, second: Seq<u8>|
            #![trigger is_text_of(arith, args[0], first), is_text_of(arith, args[1], second)]
            is_text_of(arith, args[0], first) && is_text_of(arith, args[1], second) && r == Ok::<
                Value,
                CallError,
            >(Value::String(first + second)),
        Function::Length => exists|text: Seq<u8>| #[trigger]
            is_text_of(arith, args[0], text) && r == if text.len() <= i64::MAX {
                Ok::<Value, CallError>(Value::Integer(text.len() as i64))
            } else {
                Err::<Value, CallError>(CallError::IndexOutOfRange)
            },
        _ => fixed_call(function, args) == Some(r),
    }
}

/// The answer of a function application, over the views of its values.
pub open spec fn call_view(r: Result<DynamicValue, CallError>) -> Result<Value, CallError> {
    match r {
        Ok(value) => Ok(value@),
        Err(reason) => Err(reason),
    }
}


/// The values that a sequence of values holds.
pub open spec fn values_of(values: Seq<DynamicValue>) -> Seq<Value> {
    Seq::new(values.len(), |i: int| values[i]@)
}

/// Applies arithmetic to two numbers.
fn arithmetic<A: FloatArith>(function: Function, a: DynamicNumber, b: DynamicNumber, arith: &A) -> (r:
    DynamicValue)
    requires
        function is Plus || function is Minus || function is Times || function is Divide,
    ensures
        is_arithmetic(arith, function, a, b, r@),
{
    match (function, a, b) {
        (Function::Plus, DynamicNumber::Integer(x), DynamicNumber::Integer(y)) => {
            DynamicValue::Integer(x.wrapping_add(y))
        },
        (Function::Minus, DynamicNumber::Integer(x), DynamicNumber::Integer(y)) => {
            DynamicValue::Integer(x.wrapping_sub(y))
        },
        (Function::Times, DynamicNumber::Integer(x), DynamicNumber::Integer(y)) => {
            DynamicValue::Integer(x.wrapping_mul(y))
        },
        _ => {
            let left = a.to_float(arith);
            let right = b.to_float(arith);
            DynamicValue::Float(
                match function {
                    Function::Plus => arith.sum(left, right),
                    Function::Minus => arith.difference(left, right),
                    Function::Times => arith.product(left, right),
                    _ => arith.quotient(left, right),
                },
            )
        },
    }
}

/// Reads two values as numbers, the first before the second.
fn number_pair<A: FloatArith>(a: &DynamicValue, b: &DynamicValue, arith: &A) -> (r: Result<
    (DynamicNumber, DynamicNumber),
    CallError,
>)
    ensures
        is_number_pair(arith, a@, b@, r),
        match (a@.fixed_number(), b@.fixed_number()) {
            (Some(Ok(x)), Some(Ok(y))) => r == Ok::<(DynamicNumber, DynamicNumber), CallError>(
                (x, y),
            ),
            (Some(Ok(x)), Some(Err(e))) => r == Err::<(DynamicNumber, DynamicNumber), CallError>(e),
            (Some(Err(e)), _) => r == Err::<(DynamicNumber, DynamicNumber), CallError>(e),
            _ => true,
        },
{
    let first = a.try_as_number(arith);
    match first {
        Err(e) => {
            Err(e)
        },
        Ok(x) => {
            let second = b.try_as_number(arith);
            assert(is_number_of(arith, a@, first) && is_number_of(arith, b@, second));
            match second {
                Err(e) => Err(e),
                Ok(y) => Ok((x, y)),
            }
        },
    }
}

/// Applies a function to its arguments.
pub fn call_function<A: FloatArith>(function: Function, args: &Vec<DynamicValue>, arith: &A) -> (r:
    Result<DynamicValue, CallError>)
    requires
        function.spec_arity().accepts(args@.len()),
    ensures
        is_call(arith, function, values_of(args@), call_view(r)),
        agrees_with_call(r, fixed_call(function, values_of(args@))),
{
    proof {
        assert(values_of(args@)[0] == args@[0]@);
        if args@.len() > 1 {
            assert(values_of(args@)[1] == args@[1]@);
        }
    }
    match function {
        Function::Plus | Function::Minus | Function::Times | Function::Divide => {
            let (a, b) = number_pair(&args[0], &args[1], arith)?;
            Ok(arithmetic(function, a, b, arith))
        },
        Function::Negate => {
            match args[0].try_as_number(arith)? {
                DynamicNumber::Integer(x) => Ok(DynamicValue::Integer(0i64.wrapping_sub(x))),
                DynamicNumber::Float(f) => {
                    let bits = if f.bits >= SIGN_BIT {
                        f.bits - SIGN_BIT
                    } else {
                        f.bits + SIGN_BIT
                    };
                    Ok(DynamicValue::Float(Float::from_bits(bits)))
                },
            }
        },
        Function::Equal
        | Function::NotEqual
        | Function::Less
        | Function::LessOrEqual
        | Function::Greater
        | Function::GreaterOrEqual => {
            let (a, b) = number_pair(&args[0], &args[1], arith)?;
            let comparison = a.compare(&b);
            let holds = match function {
                Function::Equal => comparison == Comparison::Equal,
                Function::NotEqual => comparison != Comparison::Equal,
                Function::Less => comparison == Comparison::Less,
                Function::LessOrEqual => comparison != Comparison::Greater,
                Function::Greater => comparison == Comparison::Greater,
                _ => comparison != Comparison::Less,
            };
            Ok(DynamicValue::Boolean(holds))
        },
        Function::Not => Ok(DynamicValue::Boolean(!args[0].is_truthy())),
        Function::And => {
            let left = args[0].is_truthy();
            let right = args[1].is_truthy();
            Ok(DynamicValue::Boolean(left && right))
        },
        Function::Or => {
            let left = args[0].is_truthy();
            let right = args[1].is_truthy();
            Ok(DynamicValue::Boolean(left || right))
        },
        Function::Concat => {
            let mut text = args[0].serialize_as_bytes(arith);
            let more = args[1].serialize_as_bytes(arith);
            crate::parser::write_bytes(more.as_slice(), &mut text);
            Ok(DynamicValue::String(text))
        },
        Function::Length => {
            let text = args[0].serialize_as_bytes(arith);
            let length = text.len();
            if length as u64 <= 0x7fff_ffff_ffff_ffff {
                Ok(DynamicValue::Integer(length as i64))
            } else {
                Err(CallError::IndexOutOfRange)
            }
        },
        Function::Coalesce => {
            if args[0].is_nullish() {
                Ok(args[1].duplicate())
            } else {
                Ok(args[0].duplicate())
            }
        },
    }
}

/// What went wrong in an evaluation: the function that failed, and why.
pub struct Failure {
    pub function: Function,
    pub reason: CallError,
}

/// What an expression comes to against the fields of a record, where no
/// binary64 value has to be rounded, read or written. A column is the field
/// at its index, as a string. The arguments of a call are evaluated from
/// left to right, then the function is applied; the first error ends the
/// evaluation.
pub open spec fn fixed_evaluation(bound: Bound, fields: Seq<Seq<u8>>) -> Option<
    Result<Value, Failure>,
>
    decreases bound, 0nat,
{
    match bound {
        Bound::Column(index) => if index < fields.len() {
            Some(Ok(Value::String(fields[index as int])))
        } else {
            None
        },
        Bound::Integer(value) => Some(Ok(Value::Integer(value))),
        Bound::Float(value) => Some(Ok(Value::Float(value))),
        Bound::String(content) => Some(Ok(Value::String(content))),
        Bound::Boolean(value) => Some(Ok(Value::Boolean(value))),
        Bound::Null => Some(Ok(Value::Null)),
        Bound::Call(function, args) => match fixed_evaluations(args, fields, 0) {
            Some(Ok(values)) => match fixed_call(function, values) {
                Some(Ok(value)) => Some(Ok(value)),
                Some(Err(reason)) => Some(Err(Failure { function, reason })),
                None => None,
            },
            Some(Err(failure)) => Some(Err(failure)),
            None => None,
        },
    }
}

/// What the expressions from `from` on come to, in turn.
pub open spec fn fixed_evaluations(args: Seq<Bound>, fields: Seq<Seq<u8>>, from: nat) -> Option<
    Result<Seq<Value>, Failure>,
>
    decreases args, args.len() - from,
{
    if from >= args.len() {
        Some(Ok(Seq::empty()))
    } else {
        match fixed_evaluation(args[from as int], fields) {
            Some(Ok(first)) => match fixed_evaluations(args, fields, from + 1) {
                Some(Ok(rest)) => Some(Ok(seq![first] + rest)),
                Some(Err(failure)) => Some(Err(failure)),
                None => None,
            },
            Some(Err(failure)) => Some(Err(failure)),
            None => None,
        }
    }
}

/// Whether `r` is what applying `function` to `values` comes to in an
/// evaluation: the value of the call, or the function with the reason for
/// which the call failed.
pub open spec fn is_application<A: FloatArith>(
    arith: &A,
    function: Function,
    values: Seq<Value>,
    r: Result<Value, Failure>,
) -> bool {
    exists|answer: Result<Value, CallError>| #[trigger]
        is_call(arith, function, values, answer) && r == match answer {
            Ok(value) => Ok::<Value, Failure>(value),
            Err(reason) => Err::<Value, Failure>(Failure { function, reason }),
        }
}

/// Whether `r` is what the expression comes to against the fields of a
/// record, for every expression that reads no column beyond them. A column
/// is the field at its index, as a string, and a literal is its value. The
/// arguments of a call are evaluated from left to right: the first that
/// fails is the failure of the call; where none fails, the function is
/// applied to their values, with `arith` as its arithmetic.
pub open spec fn is_evaluation<A: FloatArith>(
    arith: &A,
    bound: Bound,
    fields: Seq<Seq<u8>>,
    r: Result<Value, Failure>,
) -> bool
    decreases bound, 0nat,
{
    match bound {
        Bound::Column(index) => index < fields.len() ==> r == Ok::<Value, Failure>(
            Value::String(fields[index as int]),
        ),
        Bound::Integer(value) => r == Ok::<Value, Failure>(Value::Integer(value)),
        Bound::Float(value) => r == Ok::<Value, Failure>(Value::Float(value)),
        Bound::String(content) => r == Ok::<Value, Failure>(Value::String(content)),
        Bound::Boolean(value) => r == Ok::<Value, Failure>(Value::Boolean(value)),
        Bound::Null => r == Ok::<Value, Failure>(Value::Null),
        Bound::Call(function, args) => exists|values: Seq<Value>|
            #![trigger values.len()]
            are_evaluations(arith, args, fields, values) && if values.len() >= args.len() {
                is_application(arith, function, values, r)
            } else {
                r is Err && is_evaluation(arith, args[values.len() as int], fields, r)
            },
    }
}

/// Whether `values` are what the leading expressions of `args` come to, one
/// for one.
pub open spec fn are_evaluations<A: FloatArith>(
    arith: &A,
    args: Seq<Bound>,
    fields: Seq<Seq<u8>>,
    values: Seq<Value>,
) -> bool
    decreases args, 1nat,
{
    values.len() <= args.len() && forall|j: int|
        0 <= j < values.len() && j < args.len() ==> is_evaluation(
            arith,
            args[j],
            fields,
            Ok(#[trigger] values[j]),
        )
}

/// Whether evaluating the expression fails with `fault`: with the name of
/// the function that failed, and the reason.
pub open spec fn is_failure<A: FloatArith>(
    arith: &A,
    bound: Bound,
    fields: Seq<Seq<u8>>,
    fault: Fault,
) -> bool {
    exists|function: Function|
        #[trigger] function.spec_name() == fault.function_name && is_evaluation(
            arith,
            bound,
            fields,
            Err(Failure { function, reason: fault.reason }),
        )
}

/// Whether the answer `r` of an evaluation is what the expression comes to.
pub open spec fn is_evaluation_of<A: FloatArith>(
    arith: &A,
    bound: Bound,
    fields: Seq<Seq<u8>>,
    r: Result<DynamicValue, EvaluationError>,
) -> bool {
    match r {
        Ok(value) => is_evaluation(arith, bound, fields, Ok(value@)),
        Err(error) => is_failure(arith, bound, fields, error@),
    }
}

/// Whether the answer `r` of an evaluation agrees with what is fixed of it.
pub open spec fn agrees_with_evaluation(
    r: Result<DynamicValue, EvaluationError>,
    fixed: Option<Result<Value, Failure>>,
) -> bool {
    match fixed {
        Some(Ok(value)) => r matches Ok(answer) && answer@ == value,
        Some(Err(failure)) => r matches Err(EvaluationError::Call(error)) && error.reason
            == failure.reason && error.function_name@ == failure.function.spec_name(),
        None => true,
    }
}

/// Evaluates a bound expression against a record that has a field for every
/// column that the expression reads.
pub fn eval_expr<A: FloatArith>(expr: &ConcreteArgument, record: &ByteRecord, arith: &A) -> (r:
    Result<DynamicValue, EvaluationError>)
    requires
        expr@.fits(record_fields(*record).len()),
    ensures
        is_evaluation_of(arith, expr@, record_fields(*record), r),
        agrees_with_evaluation(r, fixed_evaluation(expr@, record_fields(*record))),
    decreases expr,
{
    match expr {
        ConcreteArgument::Column(index) => match record_get(record, *index) {
            Some(field) => Ok(DynamicValue::String(copy_bytes(field))),
            None => vstd::pervasive::unreached(),
        },
        ConcreteArgument::Integer(value) => Ok(DynamicValue::Integer(*value)),
        ConcreteArgument::Float(value) => Ok(DynamicValue::Float(*value)),
        ConcreteArgument::String(content) => Ok(DynamicValue::String(copy_bytes(content.as_slice()))),
        ConcreteArgument::Boolean(value) => Ok(DynamicValue::Boolean(*value)),
        ConcreteArgument::Null => Ok(DynamicValue::Null),
        ConcreteArgument::Call(function, args) => {
            proof {
                lemma_bound_call(*function, *args);
            }
            let ghost trees = bounds_of(args@);
            let ghost fields = record_fields(*record);
            let mut values: Vec<DynamicValue> = Vec::new();
            let mut i: usize = 0;
            proof {
                assert(values_of(values@) =~= Seq::<Value>::empty());
                match fixed_evaluations(trees, fields, 0) {
                    Some(Ok(rest)) => {
                        assert(values_of(values@) + rest =~= rest);
                    },
                    _ => {},
                }
            }
            while i < args.len()
                invariant
                    i <= args.len(),
                    values@.len() == i,
                    trees == bounds_of(args@),
                    fields == record_fields(*record),
                    expr@ == Bound::Call(*function, trees),
                    expr matches ConcreteArgument::Call(_, a) && a == args,
                    forall|j: int|
                        0 <= j < trees.len() ==> (#[trigger] trees[j]).fits(fields.len()),
                    are_evaluations(arith, trees, fields, values_of(values@)),
                    match fixed_evaluations(trees, fields, 0) {
                        Some(Ok(all)) => fixed_evaluations(trees, fields, i as nat) matches Some(
                            Ok(rest),
                        ) && all == values_of(values@) + rest,
                        Some(Err(failure)) => fixed_evaluations(trees, fields, i as nat) == Some(
                            Err::<Seq<Value>, Failure>(failure),
                        ),
                        None => true,
                    },
                decreases args.len() - i,
            {
                let ghost before = values_of(values@);
                assert(trees[i as int] == args@[i as int]@);
                match eval_expr(&args[i], record, arith) {
                    Ok(value) => {
                        let ghost v = value@;
                        values.push(value);
                        proof {
                            assert(values_of(values@) =~= before + seq![v]);
                            assert forall|j: int|
                                0 <= j < values_of(values@).len() && j < trees.len() implies is_evaluation(
                                arith,
                                trees[j],
                                fields,
                                Ok(#[trigger] values_of(values@)[j]),
                            ) by {
                                if j < i {
                                    assert(values_of(values@)[j] == before[j]);
                                }
                            }
                            match fixed_evaluations(trees, fields, (i + 1) as nat) {
                                Some(Ok(rest)) => {
                                    assert(before + (seq![v] + rest) =~= values_of(values@) + rest);
                                },
                                _ => {},
                            }
                        }
                    },
                    Err(e) => {
                        proof {
                            let here = fixed_evaluation(trees[i as int], fields);
                            let onward = fixed_evaluations(trees, fields, i as nat);
                            assert(here is None ==> onward is None);
                            assert(here matches Some(Err(failure)) ==> onward == Some(
                                Err::<Seq<Value>, Failure>(failure),
                            ));
                            let fault = e@;
                            assert(is_failure(arith, trees[i as int], fields, fault));
                            let function = choose|function: Function|
                                #[trigger] function.spec_name() == fault.function_name
                                    && is_evaluation(
                                    arith,
                                    trees[i as int],
                                    fields,
                                    Err(Failure { function, reason: fault.reason }),
                                );
                            let failure = Err::<Value, Failure>(
                                Failure { function, reason: fault.reason },
                            );
                            assert(are_evaluations(arith, trees, fields, before));
                            assert(before.len() == i);
                            assert(is_evaluation(arith, expr@, fields, failure));
                            assert(function.spec_name() == fault.function_name);
                        }
                        return Err(e);
                    },
                }
                i += 1;
            }
            proof {
                match fixed_evaluations(trees, fields, 0) {
                    Some(Ok(all)) => {
                        assert(all =~= values_of(values@));
                    },
                    _ => {},
                }
            }
            let answer = call_function(*function, &values, arith);
            proof {
                let applied = match call_view(answer) {
                    Ok(value) => Ok::<Value, Failure>(value),
                    Err(reason) => Err::<Value, Failure>(Failure { function: *function, reason }),
                };
                assert(is_call(arith, *function, values_of(values@), call_view(answer)));
                assert(is_application(arith, *function, values_of(values@), applied));
                assert(are_evaluations(arith, trees, fields, values_of(values@)));
                assert(values_of(values@).len() == trees.len());
                assert(is_evaluation(arith, Bound::Call(*function, trees), fields, applied));
                assert(is_evaluation(arith, expr@, fields, applied));
            }
            match answer {
                Ok(value) => Ok(value),
                Err(reason) => {
                    let function_name = function.name();
                    assert(function.spec_name() == function_name@);
                    Err(EvaluationError::Call(SpecifiedCallError { function_name, reason }))
                },
            }
        },
    }
}


}
