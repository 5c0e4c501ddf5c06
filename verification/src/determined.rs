//! What a determined arithmetic fixes. Where the answers of the arithmetic
//! follow from what it is asked, an expression is bound to one tree and
//! comes to one value, a record moves a program in one way, and one output
//! record comes of a run.

use vstd::prelude::*;
use crate::atoms::{is_ratio, is_root_of_ratio, is_sum_with, is_welford_step, WelfordState};
use crate::composite::{
    is_atom_step, is_feeding, is_final_value, is_reading, Atom, ConcreteAggregationMethod, Read,
};
use crate::error::{CallError, Fault};
use crate::frequencies::{distinct_keys, has_key, is_mode_at, is_tally_step, Tally};
use crate::interpreter::{
    are_bindings, are_evaluations, first_named, is_application, is_arithmetic, is_binding, is_call,
    is_evaluation, is_number_pair, is_numeral_binding, is_operation, Bound, Failure, Function,
    Rejection,
};
use crate::number::{
    is_determined, is_difference, is_float_of, is_parsing, is_product, is_quotient, is_rounding,
    is_square_root, is_sum, lemma_exact_half_is_unique, DynamicNumber, Float, FloatArith,
};
use crate::numbers::{halves_exactly, is_midpoint_with};
use crate::parser::{expression_of, AggregationSyntax, Syntax};
use crate::planner::{
    are_requests, arity_rejection, is_argument, is_planning, is_request, is_result, plan_of,
    states_fresh, states_match, Plan, Request, UnitPlan,
};
use crate::program::{
    group_index, group_start, is_group_output, is_group_step, is_output_field, is_output_record,
    is_run_step, is_unit_failure, is_unit_reading, is_unit_step, is_unit_value, lemma_group_index,
    states_finalized_from, unit_atoms, unit_reads, Group,
};
use crate::round_trip::lemma_round_trip;
use crate::text::{lemma_lex_equal, lemma_lex_flip};
use crate::value::{is_number_of, is_text_of, Value};

verus! {

/// The first column of a name lies among the columns.
proof fn lemma_first_named(names: Seq<Seq<u8>>, name: Seq<u8>, from: int)
    requires
        0 <= from,
    ensures
        first_named(names, name, from) matches Some(at) ==> from <= at < names.len(),
    decreases names.len() - from,
{
    if from < names.len() && names[from] != name {
        lemma_first_named(names, name, from + 1);
    }
}

/// Under a determined arithmetic an expression is bound to a header in one
/// way: two answers of the binding are the same answer.
pub proof fn lemma_binding_is_determined<A: FloatArith>(
    arith: &A,
    syntax: Syntax,
    headers: Seq<Seq<u8>>,
    first: Result<Bound, Rejection>,
    second: Result<Bound, Rejection>,
)
    requires
        is_determined(arith),
        headers.len() <= usize::MAX,
        is_binding(arith, syntax, headers, first),
        is_binding(arith, syntax, headers, second),
    ensures
        first == second,
    decreases syntax, 0nat,
{
    match syntax {
        Syntax::Identifier(name) => {
            lemma_first_named(headers, name, 0);
        },
        Syntax::Float(numeral) => {
            assert(is_numeral_binding(arith, numeral, first));
            assert(is_numeral_binding(arith, numeral, second));
            let a = choose|answer: Option<Float>| #[trigger]
                is_parsing(arith, numeral, answer) && first == match answer {
                    Some(value) => Ok::<Bound, Rejection>(Bound::Float(value)),
                    None => Err::<Bound, Rejection>(Rejection::ParseError(numeral)),
                };
            let b = choose|answer: Option<Float>| #[trigger]
                is_parsing(arith, numeral, answer) && second == match answer {
                    Some(value) => Ok::<Bound, Rejection>(Bound::Float(value)),
                    None => Err::<Bound, Rejection>(Rejection::ParseError(numeral)),
                };
            assert(a == b);
        },
        Syntax::Call(name, args) => match crate::interpreter::function_named(name) {
            None => {},
            Some(function) => {
                if function.spec_arity().accepts(args.len()) {
                    let one = choose|bound: Seq<Bound>|
                        #![trigger bound.len()]
                        are_bindings(arith, args, headers, bound) && if bound.len() >= args.len() {
                            first == Ok::<Bound, Rejection>(Bound::Call(function, bound))
                        } else {
                            first is Err && is_binding(
                                arith,
                                args[bound.len() as int],
                                headers,
                                first,
                            )
                        };
                    let other = choose|bound: Seq<Bound>|
                        #![trigger bound.len()]
                        are_bindings(arith, args, headers, bound) && if bound.len() >= args.len() {
                            second == Ok::<Bound, Rejection>(Bound::Call(function, bound))
                        } else {
                            second is Err && is_binding(
                                arith,
                                args[bound.len() as int],
                                headers,
                                second,
                            )
                        };
                    assert forall|j: int| 0 <= j < one.len() && j < other.len() implies one[j]
                        == other[j] by {
                        lemma_binding_is_determined(
                            arith,
                            args[j],
                            headers,
                            Ok(one[j]),
                            Ok(other[j]),
                        );
                    }
                    if one.len() < other.len() {
                        lemma_binding_is_determined(
                            arith,
                            args[one.len() as int],
                            headers,
                            first,
                            Ok(other[one.len() as int]),
                        );
                    } else if other.len() < one.len() {
                        lemma_binding_is_determined(
                            arith,
                            args[other.len() as int],
                            headers,
                            Ok(one[other.len() as int]),
                            second,
                        );
                    } else if one.len() < args.len() {
                        lemma_binding_is_determined(
                            arith,
                            args[one.len() as int],
                            headers,
                            first,
                            second,
                        );
                    } else {
                        assert(one =~= other);
                    }
                }
            },
        },
        _ => {},
    }
}

/// Under a determined arithmetic a value is read as a number in one way.
pub proof fn lemma_number_is_determined<A: FloatArith>(
    arith: &A,
    value: Value,
    first: Result<DynamicNumber, CallError>,
    second: Result<DynamicNumber, CallError>,
)
    requires
        is_determined(arith),
        is_number_of(arith, value, first),
        is_number_of(arith, value, second),
    ensures
        first == second,
{
    if value.fixed_number() is None {
        let a = choose|answer: Option<Float>|
            #[trigger] is_parsing(arith, value->String_0, answer) && first == match answer {
                Some(f) => Ok::<DynamicNumber, CallError>(DynamicNumber::Float(f)),
                None => Err::<DynamicNumber, CallError>(CallError::CannotCoerceToNumber),
            };
        let b = choose|answer: Option<Float>|
            #[trigger] is_parsing(arith, value->String_0, answer) && second == match answer {
                Some(f) => Ok::<DynamicNumber, CallError>(DynamicNumber::Float(f)),
                None => Err::<DynamicNumber, CallError>(CallError::CannotCoerceToNumber),
            };
        assert(a == b);
    }
}

/// Under a determined arithmetic a value is written as one text.
pub proof fn lemma_text_is_determined<A: FloatArith>(
    arith: &A,
    value: Value,
    first: Seq<u8>,
    second: Seq<u8>,
)
    requires
        is_determined(arith),
        is_text_of(arith, value, first),
        is_text_of(arith, value, second),
    ensures
        first == second,
{
}

/// Under a determined arithmetic two values are read as one pair of
/// numbers, or fail alike.
pub proof fn lemma_pair_is_determined<A: FloatArith>(
    arith: &A,
    a: Value,
    b: Value,
    first: Result<(DynamicNumber, DynamicNumber), CallError>,
    second: Result<(DynamicNumber, DynamicNumber), CallError>,
)
    requires
        is_determined(arith),
        is_number_pair(arith, a, b, first),
        is_number_pair(arith, a, b, second),
    ensures
        first == second,
{
    let x = choose|x: Result<DynamicNumber, CallError>|
        #[trigger] is_number_of(arith, a, x) && match x {
            Err(e) => first == Err::<(DynamicNumber, DynamicNumber), CallError>(e),
            Ok(n) => exists|y: Result<DynamicNumber, CallError>|
                #[trigger] is_number_of(arith, b, y) && match y {
                    Err(e) => first == Err::<(DynamicNumber, DynamicNumber), CallError>(e),
                    Ok(m) => first == Ok::<(DynamicNumber, DynamicNumber), CallError>((n, m)),
                },
        };
    let u = choose|u: Result<DynamicNumber, CallError>|
        #[trigger] is_number_of(arith, a, u) && match u {
            Err(e) => second == Err::<(DynamicNumber, DynamicNumber), CallError>(e),
            Ok(n) => exists|v: Result<DynamicNumber, CallError>|
                #[trigger] is_number_of(arith, b, v) && match v {
                    Err(e) => second == Err::<(DynamicNumber, DynamicNumber), CallError>(e),
                    Ok(m) => second == Ok::<(DynamicNumber, DynamicNumber), CallError>((n, m)),
                },
        };
    lemma_number_is_determined(arith, a, x, u);
    match x {
        Err(_) => {},
        Ok(n) => {
            let y = choose|y: Result<DynamicNumber, CallError>|
                #[trigger] is_number_of(arith, b, y) && match y {
                    Err(e) => first == Err::<(DynamicNumber, DynamicNumber), CallError>(e),
                    Ok(m) => first == Ok::<(DynamicNumber, DynamicNumber), CallError>((n, m)),
                };
            let v = choose|v: Result<DynamicNumber, CallError>|
                #[trigger] is_number_of(arith, b, v) && match v {
                    Err(e) => second == Err::<(DynamicNumber, DynamicNumber), CallError>(e),
                    Ok(m) => second == Ok::<(DynamicNumber, DynamicNumber), CallError>((n, m)),
                };
            lemma_number_is_determined(arith, b, y, v);
        },
    }
}

/// Under a determined arithmetic `+`, `-`, `*` and `/` come to one value.
pub proof fn lemma_arithmetic_is_determined<A: FloatArith>(
    arith: &A,
    function: Function,
    a: DynamicNumber,
    b: DynamicNumber,
    first: Value,
    second: Value,
)
    requires
        is_determined(arith),
        is_arithmetic(arith, function, a, b, first),
        is_arithmetic(arith, function, a, b, second),
    ensures
        first == second,
{
    if !(a is Integer && b is Integer && !(function is Divide)) {
        let (l1, r1) = choose|left: Float, right: Float|
            #![trigger is_float_of(arith, a, left), is_float_of(arith, b, right)]
            is_float_of(arith, a, left) && is_float_of(arith, b, right) && is_operation(
                arith,
                function,
                left,
                right,
                first->Float_0,
            );
        let (l2, r2) = choose|left: Float, right: Float|
            #![trigger is_float_of(arith, a, left), is_float_of(arith, b, right)]
            is_float_of(arith, a, left) && is_float_of(arith, b, right) && is_operation(
                arith,
                function,
                left,
                right,
                second->Float_0,
            );
        assert(l1 == l2);
        assert(r1 == r2);
        assert(first->Float_0 == second->Float_0);
    }
}

/// Under a determined arithmetic a function applied to values comes to one
/// answer.
pub proof fn lemma_call_is_determined<A: FloatArith>(
    arith: &A,
    function: Function,
    args: Seq<Value>,
    first: Result<Value, CallError>,
    second: Result<Value, CallError>,
)
    requires
        is_determined(arith),
        function.spec_arity().accepts(args.len()),
        is_call(arith, function, args, first),
        is_call(arith, function, args, second),
    ensures
        first == second,
{
    match function {
        Function::Plus | Function::Minus | Function::Times | Function::Divide => {
            let p = choose|pair: Result<(DynamicNumber, DynamicNumber), CallError>|
                #[trigger] is_number_pair(arith, args[0], args[1], pair) && match pair {
                    Err(e) => first == Err::<Value, CallError>(e),
                    Ok((x, y)) => first is Ok && is_arithmetic(arith, function, x, y, first->Ok_0),
                };
            let q = choose|pair: Result<(DynamicNumber, DynamicNumber), CallError>|
                #[trigger] is_number_pair(arith, args[0], args[1], pair) && match pair {
                    Err(e) => second == Err::<Value, CallError>(e),
                    Ok((x, y)) => second is Ok && is_arithmetic(
                        arith,
                        function,
                        x,
                        y,
                        second->Ok_0,
                    ),
                };
            lemma_pair_is_determined(arith, args[0], args[1], p, q);
            match p {
                Err(_) => {},
                Ok((x, y)) => {
                    lemma_arithmetic_is_determined(
                        arith,
                        function,
                        x,
                        y,
                        first->Ok_0,
                        second->Ok_0,
                    );
                },
            }
        },
        Function::Negate => {
            assert forall|m: Result<DynamicNumber, CallError>, n: Result<DynamicNumber, CallError>|
                is_number_of(arith, args[0], m) && is_number_of(arith, args[0], n) implies m
                == n by {
                lemma_number_is_determined(arith, args[0], m, n);
            }
        },
        Function::Equal
        | Function::NotEqual
        | Function::Less
        | Function::LessOrEqual
        | Function::Greater
        | Function::GreaterOrEqual => {
            assert forall|
                m: Result<(DynamicNumber, DynamicNumber), CallError>,
                n: Result<(DynamicNumber, DynamicNumber), CallError>,
            |
                is_number_pair(arith, args[0], args[1], m) && is_number_pair(
                    arith,
                    args[0],
                    args[1],
                    n,
                ) implies m == n by {
                lemma_pair_is_determined(arith, args[0], args[1], m, n);
            }
        },
        Function::Concat => {
            assert forall|m: Seq<u8>, n: Seq<u8>, k: int|
                0 <= k < 2 && is_text_of(arith, args[k], m) && is_text_of(
                    arith,
                    args[k],
                    n,
                ) implies m == n by {
                lemma_text_is_determined(arith, args[k], m, n);
            }
        },
        Function::Length => {
            assert forall|m: Seq<u8>, n: Seq<u8>|
                is_text_of(arith, args[0], m) && is_text_of(arith, args[0], n) implies m
                == n by {
                lemma_text_is_determined(arith, args[0], m, n);
            }
        },
        _ => {},
    }
}

/// Under a determined arithmetic an expression comes to one value against
/// the fields of a record: the evaluation is a function of the expression
/// and the record.
pub proof fn lemma_evaluation_is_determined<A: FloatArith>(
    arith: &A,
    bound: Bound,
    fields: Seq<Seq<u8>>,
    first: Result<Value, Failure>,
    second: Result<Value, Failure>,
)
    requires
        is_determined(arith),
        bound.fits(fields.len()),
        is_evaluation(arith, bound, fields, first),
        is_evaluation(arith, bound, fields, second),
    ensures
        first == second,
    decreases bound, 0nat,
{
    match bound {
        Bound::Call(function, args) => {
            let one = choose|values: Seq<Value>|
                #![trigger values.len()]
                are_evaluations(arith, args, fields, values) && if values.len() >= args.len() {
                    is_application(arith, function, values, first)
                } else {
                    first is Err && is_evaluation(arith, args[values.len() as int], fields, first)
                };
            let other = choose|values: Seq<Value>|
                #![trigger values.len()]
                are_evaluations(arith, args, fields, values) && if values.len() >= args.len() {
                    is_application(arith, function, values, second)
                } else {
                    second is Err && is_evaluation(
                        arith,
                        args[values.len() as int],
                        fields,
                        second,
                    )
                };
            assert forall|j: int| 0 <= j < one.len() && j < other.len() implies one[j]
                == other[j] by {
                lemma_evaluation_is_determined(arith, args[j], fields, Ok(one[j]), Ok(other[j]));
            }
            if one.len() < other.len() {
                lemma_evaluation_is_determined(
                    arith,
                    args[one.len() as int],
                    fields,
                    first,
                    Ok(other[one.len() as int]),
                );
            } else if other.len() < one.len() {
                lemma_evaluation_is_determined(
                    arith,
                    args[other.len() as int],
                    fields,
                    Ok(one[other.len() as int]),
                    second,
                );
            } else if one.len() < args.len() {
                lemma_evaluation_is_determined(
                    arith,
                    args[one.len() as int],
                    fields,
                    first,
                    second,
                );
            } else {
                assert(one =~= other);
                let a = choose|answer: Result<Value, CallError>| #[trigger]
                    is_call(arith, function, one, answer) && first == match answer {
                        Ok(value) => Ok::<Value, Failure>(value),
                        Err(reason) => Err::<Value, Failure>(Failure { function, reason }),
                    };
                let b = choose|answer: Result<Value, CallError>| #[trigger]
                    is_call(arith, function, one, answer) && second == match answer {
                        Ok(value) => Ok::<Value, Failure>(value),
                        Err(reason) => Err::<Value, Failure>(Failure { function, reason }),
                    };
                lemma_call_is_determined(arith, function, one, a, b);
            }
        },
        _ => {},
    }
}

/// Under a determined arithmetic the statistic of a method is read off an
/// atom in one way.
pub proof fn lemma_final_value_is_determined<A: FloatArith>(
    arith: &A,
    atom: Atom,
    method: ConcreteAggregationMethod,
    first: Value,
    second: Value,
)
    requires
        is_determined(arith),
        is_final_value(arith, atom, method, first),
        is_final_value(arith, atom, method, second),
    ensures
        first == second,
{
    match (atom, method) {
        (Atom::Numbers(numbers), ConcreteAggregationMethod::Median(median_type)) => {
            let count = numbers.len() as int;
            if count > 0 && count % 2 == 0 && median_type is Interpolation {
                let down = numbers[count / 2 - 1];
                let up = numbers[count / 2];
                let a = first.as_number()->0;
                let b = second.as_number()->0;
                assert(is_midpoint_with(arith, down, up, a));
                assert(is_midpoint_with(arith, down, up, b));
                if halves_exactly(down, up) {
                    lemma_exact_half_is_unique(
                        a->Float_0,
                        b->Float_0,
                        down->Integer_0 + up->Integer_0,
                    );
                } else {
                    let (l1, r1, t1) = choose|left: Float, right: Float, total: Float|
                        {
                            &&& is_float_of(arith, down, left)
                            &&& is_float_of(arith, up, right)
                            &&& #[trigger] is_sum(arith, left, right, total)
                            &&& is_quotient(
                                arith,
                                total,
                                Float { bits: crate::number::TWO_BITS },
                                a->Float_0,
                            )
                        };
                    let (l2, r2, t2) = choose|left: Float, right: Float, total: Float|
                        {
                            &&& is_float_of(arith, down, left)
                            &&& is_float_of(arith, up, right)
                            &&& #[trigger] is_sum(arith, left, right, total)
                            &&& is_quotient(
                                arith,
                                total,
                                Float { bits: crate::number::TWO_BITS },
                                b->Float_0,
                            )
                        };
                    assert(l1 == l2 && r1 == r2);
                    assert(t1 == t2);
                }
                assert(a == b);
            }
        },
        (Atom::Frequencies(entries), ConcreteAggregationMethod::Mode) => {
            if entries.len() > 0 {
                let i = choose|i: int|
                    is_mode_at(entries, i) && first == Value::String((#[trigger] entries[i]).0);
                let j = choose|j: int|
                    is_mode_at(entries, j) && second == Value::String((#[trigger] entries[j]).0);
                lemma_lex_flip(entries[i].0, entries[j].0);
                lemma_lex_equal(entries[i].0, entries[j].0);
            }
        },
        (Atom::Welford(state), ConcreteAggregationMethod::VarPop) => {
            if state.count >= 1 {
                lemma_ratio_is_determined(
                    arith,
                    state.m2,
                    state.count as int,
                    first->Float_0,
                    second->Float_0,
                );
            }
        },
        (Atom::Welford(state), ConcreteAggregationMethod::StddevPop) => {
            if state.count >= 1 {
                lemma_root_is_determined(
                    arith,
                    state.m2,
                    state.count as int,
                    first->Float_0,
                    second->Float_0,
                );
            }
        },
        (Atom::Welford(state), ConcreteAggregationMethod::VarSample) => {
            if state.count >= 2 {
                lemma_ratio_is_determined(
                    arith,
                    state.m2,
                    state.count as int - 1,
                    first->Float_0,
                    second->Float_0,
                );
            }
        },
        (Atom::Welford(state), ConcreteAggregationMethod::StddevSample) => {
            if state.count >= 2 {
                lemma_root_is_determined(
                    arith,
                    state.m2,
                    state.count as int - 1,
                    first->Float_0,
                    second->Float_0,
                );
            }
        },
        _ => {},
    }
}

/// Under a determined arithmetic the squared deviations are divided by a
/// count in one way.
pub proof fn lemma_ratio_is_determined<A: FloatArith>(
    arith: &A,
    m2: Float,
    count: int,
    first: Float,
    second: Float,
)
    requires
        is_determined(arith),
        is_ratio(arith, m2, count, first),
        is_ratio(arith, m2, count, second),
    ensures
        first == second,
{
    let a = choose|divisor: Float|
        is_rounding(arith, count as i64, divisor) && #[trigger] is_quotient(
            arith,
            m2,
            divisor,
            first,
        );
    let b = choose|divisor: Float|
        is_rounding(arith, count as i64, divisor) && #[trigger] is_quotient(
            arith,
            m2,
            divisor,
            second,
        );
    assert(a == b);
}

/// Under a determined arithmetic the root of that ratio is taken in one
/// way.
pub proof fn lemma_root_is_determined<A: FloatArith>(
    arith: &A,
    m2: Float,
    count: int,
    first: Float,
    second: Float,
)
    requires
        is_determined(arith),
        is_root_of_ratio(arith, m2, count, first),
        is_root_of_ratio(arith, m2, count, second),
    ensures
        first == second,
{
    let a = choose|ratio: Float|
        is_ratio(arith, m2, count, ratio) && #[trigger] is_square_root(arith, ratio, first);
    let b = choose|ratio: Float|
        is_ratio(arith, m2, count, ratio) && #[trigger] is_square_root(arith, ratio, second);
    lemma_ratio_is_determined(arith, m2, count, a, b);
}

/// Under a determined arithmetic one output record is read off the atoms
/// of a program: what is written depends on their states alone.
pub proof fn lemma_output_is_determined<A: FloatArith>(
    arith: &A,
    plan: Plan,
    states: Seq<Seq<Atom>>,
    first: Seq<Seq<u8>>,
    second: Seq<Seq<u8>>,
)
    requires
        is_determined(arith),
        is_output_record(arith, plan, states, first),
        is_output_record(arith, plan, states, second),
    ensures
        first == second,
{
    assert forall|i: int| 0 <= i < first.len() implies first[i] == second[i] by {
        assert(is_output_field(arith, plan, states, i, first[i]));
        assert(is_output_field(arith, plan, states, i, second[i]));
        let a = choose|value: Value|
            is_result(arith, plan, states, i, value) && #[trigger] is_text_of(
                arith,
                value,
                first[i],
            );
        let b = choose|value: Value|
            is_result(arith, plan, states, i, value) && #[trigger] is_text_of(
                arith,
                value,
                second[i],
            );
        let out = plan.output[i];
        lemma_final_value_is_determined(
            arith,
            states[out.expr_index as int][out.aggregator_index as int],
            out.agg_method,
            a,
            b,
        );
        lemma_text_is_determined(arith, a, first[i], second[i]);
    }
    assert(first =~= second);
}

/// Finalizing twice yields the outputs of finalizing once: under a
/// determined arithmetic the record that is read off atoms made ready
/// twice is the record that is read off them made ready once.
pub proof fn lemma_finalize_twice_outputs_alike<A: FloatArith>(
    arith: &A,
    plan: Plan,
    start: Seq<Seq<Atom>>,
    once: Seq<Seq<Atom>>,
    twice: Seq<Seq<Atom>>,
    first: Seq<Seq<u8>>,
    second: Seq<Seq<u8>>,
)
    requires
        is_determined(arith),
        states_finalized_from(once, start),
        states_finalized_from(twice, once),
        is_output_record(arith, plan, once, first),
        is_output_record(arith, plan, twice, second),
    ensures
        first == second,
{
    crate::laws::lemma_finalize_is_idempotent(arith, plan, start, once, twice, first);
    lemma_output_is_determined(arith, plan, once, first, second);
}

/// Under a determined arithmetic a value is read for atoms in one way.
pub proof fn lemma_reading_is_determined<A: FloatArith>(
    arith: &A,
    atoms: Seq<Atom>,
    value: Option<Value>,
    first: Result<Read, CallError>,
    second: Result<Read, CallError>,
)
    requires
        is_determined(arith),
        is_reading(arith, atoms, value, first),
        is_reading(arith, atoms, value, second),
    ensures
        first == second,
{
    if value is Some {
        assert forall|m: Result<DynamicNumber, CallError>, n: Result<DynamicNumber, CallError>|
            is_number_of(arith, value->0, m) && is_number_of(arith, value->0, n) implies m
            == n by {
            lemma_number_is_determined(arith, value->0, m, n);
        }
    }
}

/// Under a determined arithmetic a record is read for a unit in one way:
/// to one reading, or to one fault.
pub proof fn lemma_unit_reading_is_determined<A: FloatArith>(
    arith: &A,
    unit: UnitPlan,
    fields: Seq<Seq<u8>>,
    first: Result<Read, Fault>,
    second: Result<Read, Fault>,
)
    requires
        is_determined(arith),
        unit.expr matches Some(e) ==> e.fits(fields.len()),
        is_unit_reading(arith, unit, fields, first),
        is_unit_reading(arith, unit, fields, second),
    ensures
        first == second,
{
    let atoms = unit_atoms(unit);
    assert forall|v: Option<Value>, w: Option<Value>|
        is_unit_value(arith, unit, fields, v) && is_unit_value(arith, unit, fields, w) implies v
        == w by {
        if unit.expr is Some {
            lemma_evaluation_is_determined(arith, unit.expr->0, fields, Ok(v->0), Ok(w->0));
        }
    }
    assert forall|v: Option<Value>, fault: Fault|
        is_unit_value(arith, unit, fields, v) && is_unit_failure(
            arith,
            unit,
            fields,
            fault,
        ) implies false by {
        let e = unit.expr->0;
        let function = choose|function: Function|
            #[trigger] function.spec_name() == fault.function_name && is_evaluation(
                arith,
                e,
                fields,
                Err(Failure { function, reason: fault.reason }),
            );
        lemma_evaluation_is_determined(
            arith,
            e,
            fields,
            Ok(v->0),
            Err(Failure { function, reason: fault.reason }),
        );
    }
    assert forall|f: Fault, g: Fault|
        is_unit_failure(arith, unit, fields, f) && is_unit_failure(
            arith,
            unit,
            fields,
            g,
        ) implies f == g by {
        let e = unit.expr->0;
        let a = choose|function: Function|
            #[trigger] function.spec_name() == f.function_name && is_evaluation(
                arith,
                e,
                fields,
                Err(Failure { function, reason: f.reason }),
            );
        let b = choose|function: Function|
            #[trigger] function.spec_name() == g.function_name && is_evaluation(
                arith,
                e,
                fields,
                Err(Failure { function, reason: g.reason }),
            );
        lemma_evaluation_is_determined(
            arith,
            e,
            fields,
            Err(Failure { function: a, reason: f.reason }),
            Err(Failure { function: b, reason: g.reason }),
        );
    }
    assert forall|v: Option<Value>, m: Result<Read, CallError>, n: Result<Read, CallError>|
        is_reading(arith, atoms, v, m) && is_reading(arith, atoms, v, n) implies m == n by {
        lemma_reading_is_determined(arith, atoms, v, m, n);
    }
    match (first, second) {
        (Ok(a), Ok(b)) => {
            assert(is_reading(arith, atoms, a.value, Ok(a)));
            assert(is_reading(arith, atoms, b.value, Ok(b)));
        },
        (Ok(a), Err(fault)) => {
            assert(is_reading(arith, atoms, a.value, Ok(a)));
            if !is_unit_failure(arith, unit, fields, fault) {
                let v = choose|value: Option<Value>|
                    #[trigger] is_unit_value(arith, unit, fields, value) && is_reading(
                        arith,
                        atoms,
                        value,
                        Err(fault.reason),
                    );
                assert(v == a.value);
            }
        },
        (Err(fault), Ok(b)) => {
            assert(is_reading(arith, atoms, b.value, Ok(b)));
            if !is_unit_failure(arith, unit, fields, fault) {
                let v = choose|value: Option<Value>|
                    #[trigger] is_unit_value(arith, unit, fields, value) && is_reading(
                        arith,
                        atoms,
                        value,
                        Err(fault.reason),
                    );
                assert(v == b.value);
            }
        },
        (Err(f), Err(g)) => {
            if !is_unit_failure(arith, unit, fields, f) && !is_unit_failure(
                arith,
                unit,
                fields,
                g,
            ) {
                let v = choose|value: Option<Value>|
                    #[trigger] is_unit_value(arith, unit, fields, value) && is_reading(
                        arith,
                        atoms,
                        value,
                        Err(f.reason),
                    );
                let w = choose|value: Option<Value>|
                    #[trigger] is_unit_value(arith, unit, fields, value) && is_reading(
                        arith,
                        atoms,
                        value,
                        Err(g.reason),
                    );
                assert(v == w);
                assert(Err::<Read, CallError>(f.reason) == Err::<Read, CallError>(g.reason));
            }
        },
    }
}

/// Whether an atom that counts strings holds none twice.
pub open spec fn holds_no_string_twice(atom: Atom) -> bool {
    atom matches Atom::Frequencies(entries) ==> distinct_keys(entries)
}

/// Under a determined arithmetic the moments move in one way when a value
/// is taken.
pub proof fn lemma_welford_step_is_determined<A: FloatArith>(
    arith: &A,
    before: WelfordState,
    value: Float,
    first: WelfordState,
    second: WelfordState,
)
    requires
        is_determined(arith),
        is_welford_step(arith, before, value, first),
        is_welford_step(arith, before, value, second),
    ensures
        first == second,
{
    let (d1, v1, s1, e1, q1) = choose|
        delta: Float,
        divisor: Float,
        share: Float,
        delta2: Float,
        square: Float,
    |
        #![trigger is_quotient(arith, delta, divisor, share), is_product(arith, delta, delta2, square)]
        {
            &&& is_difference(arith, value, before.mean, delta)
            &&& is_rounding(arith, (before.count + 1) as i64, divisor)
            &&& is_quotient(arith, delta, divisor, share)
            &&& is_sum(arith, before.mean, share, first.mean)
            &&& is_difference(arith, value, first.mean, delta2)
            &&& is_product(arith, delta, delta2, square)
            &&& is_sum(arith, before.m2, square, first.m2)
        };
    let (d2, v2, s2, e2, q2) = choose|
        delta: Float,
        divisor: Float,
        share: Float,
        delta2: Float,
        square: Float,
    |
        #![trigger is_quotient(arith, delta, divisor, share), is_product(arith, delta, delta2, square)]
        {
            &&& is_difference(arith, value, before.mean, delta)
            &&& is_rounding(arith, (before.count + 1) as i64, divisor)
            &&& is_quotient(arith, delta, divisor, share)
            &&& is_sum(arith, before.mean, share, second.mean)
            &&& is_difference(arith, value, second.mean, delta2)
            &&& is_product(arith, delta, delta2, square)
            &&& is_sum(arith, before.m2, square, second.m2)
        };
    assert(d1 == d2);
    assert(v1 == v2);
    assert(s1 == s2);
    assert(first.mean == second.mean);
    assert(e1 == e2);
    assert(q1 == q2);
    assert(first.m2 == second.m2);
}

/// A string that is held once is counted in one way.
pub proof fn lemma_tally_step_is_determined(
    before: Seq<Tally>,
    key: Seq<u8>,
    first: Seq<Tally>,
    second: Seq<Tally>,
)
    requires
        distinct_keys(before),
        is_tally_step(before, key, first),
        is_tally_step(before, key, second),
    ensures
        first == second,
        distinct_keys(first),
{
    if has_key(before, key) {
        let i = choose|i: int|
            0 <= i < before.len() && (#[trigger] before[i]).0 == key && first == before.update(
                i,
                (key, before[i].1 + 1),
            );
        let j = choose|j: int|
            0 <= j < before.len() && (#[trigger] before[j]).0 == key && second == before.update(
                j,
                (key, before[j].1 + 1),
            );
        assert(i == j);
        assert forall|a: int, b: int| 0 <= a < b < first.len() implies (#[trigger] first[a]).0 != (
        #[trigger] first[b]).0 by {
            assert(first[a].0 == before[a].0);
            assert(first[b].0 == before[b].0);
        }
    } else {
        assert forall|a: int, b: int| 0 <= a < b < first.len() implies (#[trigger] first[a]).0 != (
        #[trigger] first[b]).0 by {
            if b < before.len() {
                assert(first[a] == before[a] && first[b] == before[b]);
            } else {
                assert(first[a] == before[a]);
                assert(before[a].0 != key);
            }
        }
    }
}

/// Under a determined arithmetic an atom moves in one way when it is handed
/// a reading, and an atom that holds no string twice still holds none
/// twice.
pub proof fn lemma_atom_step_is_determined<A: FloatArith>(
    arith: &A,
    before: Atom,
    index: usize,
    read: Read,
    first: Atom,
    second: Atom,
)
    requires
        is_determined(arith),
        holds_no_string_twice(before),
        is_atom_step(arith, before, index, read, first),
        is_atom_step(arith, before, index, read, second),
    ensures
        first == second,
        holds_no_string_twice(first),
        first.kind() == before.kind(),
{
    match read.value {
        None => {},
        Some(v) => {
            assert forall|m: Seq<u8>, n: Seq<u8>|
                is_text_of(arith, v, m) && is_text_of(arith, v, n) implies m == n by {
                lemma_text_is_determined(arith, v, m, n);
            }
            match before {
                Atom::AllAny(_) => {},
                Atom::Frequencies(entries) => {
                    let a = choose|text: Seq<u8>|
                        {
                            &&& #[trigger] is_text_of(arith, v, text)
                            &&& first matches Atom::Frequencies(counted)
                            &&& is_tally_step(entries, text, counted)
                        };
                    let b = choose|text: Seq<u8>|
                        {
                            &&& #[trigger] is_text_of(arith, v, text)
                            &&& second matches Atom::Frequencies(counted)
                            &&& is_tally_step(entries, text, counted)
                        };
                    assert(a == b);
                    lemma_tally_step_is_determined(
                        entries,
                        a,
                        first->Frequencies_0,
                        second->Frequencies_0,
                    );
                },
                Atom::LexicographicExtent(_) => {},
                _ => {
                    if !v.is_nullish() {
                        match before {
                            Atom::Sum(total) => {
                                let n = read.number->0;
                                assert(is_sum_with(arith, total, n, first->Sum_0));
                                assert(is_sum_with(arith, total, n, second->Sum_0));
                                if !(total is Integer && n is Integer) {
                                    let (l1, r1) = choose|left: Float, right: Float|
                                        {
                                            &&& is_float_of(arith, total, left)
                                            &&& is_float_of(arith, n, right)
                                            &&& #[trigger] is_sum(
                                                arith,
                                                left,
                                                right,
                                                first->Sum_0->Float_0,
                                            )
                                        };
                                    let (l2, r2) = choose|left: Float, right: Float|
                                        {
                                            &&& is_float_of(arith, total, left)
                                            &&& is_float_of(arith, n, right)
                                            &&& #[trigger] is_sum(
                                                arith,
                                                left,
                                                right,
                                                second->Sum_0->Float_0,
                                            )
                                        };
                                    assert(l1 == l2 && r1 == r2);
                                }
                            },
                            Atom::Welford(state) => {
                                let n = read.number->0;
                                let a = choose|value: Float|
                                    is_float_of(arith, n, value) && #[trigger] is_welford_step(
                                        arith,
                                        state,
                                        value,
                                        first->Welford_0,
                                    );
                                let b = choose|value: Float|
                                    is_float_of(arith, n, value) && #[trigger] is_welford_step(
                                        arith,
                                        state,
                                        value,
                                        second->Welford_0,
                                    );
                                assert(a == b);
                                lemma_welford_step_is_determined(
                                    arith,
                                    state,
                                    a,
                                    first->Welford_0,
                                    second->Welford_0,
                                );
                            },
                            _ => {},
                        }
                    }
                },
            }
        },
    }
}

/// No atom of the states holds a string twice.
pub open spec fn hold_no_string_twice(states: Seq<Seq<Atom>>) -> bool {
    forall|i: int, a: int|
        0 <= i < states.len() && 0 <= a < states[i].len() ==> holds_no_string_twice(
            #[trigger] states[i][a],
        )
}

/// Under a determined arithmetic the atoms of a unit move in one way when
/// the unit is run on a record.
pub proof fn lemma_unit_step_is_determined<A: FloatArith>(
    arith: &A,
    unit: UnitPlan,
    before: Seq<Atom>,
    index: usize,
    fields: Seq<Seq<u8>>,
    first: Seq<Atom>,
    second: Seq<Atom>,
)
    requires
        is_determined(arith),
        unit.expr matches Some(e) ==> e.fits(fields.len()),
        forall|a: int| 0 <= a < before.len() ==> holds_no_string_twice(#[trigger] before[a]),
        is_unit_step(arith, unit, before, index, fields, first),
        is_unit_step(arith, unit, before, index, fields, second),
    ensures
        first == second,
        first.len() == before.len(),
        forall|a: int| 0 <= a < first.len() ==> holds_no_string_twice(#[trigger] first[a]),
{
    let r = choose|read: Read| #[trigger]
        is_unit_reading(arith, unit, fields, Ok(read)) && is_feeding(
            arith,
            before,
            index,
            read,
            first,
        );
    let t = choose|read: Read| #[trigger]
        is_unit_reading(arith, unit, fields, Ok(read)) && is_feeding(
            arith,
            before,
            index,
            read,
            second,
        );
    lemma_unit_reading_is_determined(arith, unit, fields, Ok(r), Ok(t));
    assert forall|a: int| 0 <= a < before.len() implies first[a] == second[a]
        && holds_no_string_twice(#[trigger] first[a]) by {
        assert(is_atom_step(arith, before[a], index, r, first[a]));
        assert(is_atom_step(arith, before[a], index, r, second[a]));
        lemma_atom_step_is_determined(arith, before[a], index, r, first[a], second[a]);
    }
    assert(first =~= second);
}

/// Under a determined arithmetic a program moves in one way when it is run
/// on a record: from the same states the same record leads to the same
/// states and the same outcome.
pub proof fn lemma_run_step_is_determined<A: FloatArith>(
    arith: &A,
    plan: Plan,
    before: Seq<Seq<Atom>>,
    index: usize,
    fields: Seq<Seq<u8>>,
    first: Seq<Seq<Atom>>,
    first_outcome: Option<Fault>,
    second: Seq<Seq<Atom>>,
    second_outcome: Option<Fault>,
)
    requires
        is_determined(arith),
        plan.fits(fields.len()),
        before.len() == plan.execution.len(),
        hold_no_string_twice(before),
        is_run_step(arith, plan, before, index, fields, first, first_outcome),
        is_run_step(arith, plan, before, index, fields, second, second_outcome),
    ensures
        first == second,
        first_outcome == second_outcome,
        first.len() == before.len(),
        hold_no_string_twice(first),
{
    assert forall|k: int, fault: Fault|
        0 <= k < plan.execution.len() && is_unit_reading(
            arith,
            plan.execution[k],
            fields,
            Err(fault),
        ) && unit_reads(arith, plan.execution[k], fields) implies false by {
        let read = choose|read: Read| #[trigger]
            is_unit_reading(arith, plan.execution[k], fields, Ok(read));
        lemma_unit_reading_is_determined(arith, plan.execution[k], fields, Ok(read), Err(fault));
    }
    match (first_outcome, second_outcome) {
        (None, None) => {
            assert forall|i: int| 0 <= i < before.len() implies first[i] == second[i] && (forall|
                a: int,
            |
                0 <= a < first[i].len() ==> holds_no_string_twice(#[trigger] first[i][a])) by {
                assert(is_unit_step(arith, plan.execution[i], before[i], index, fields, first[i]));
                assert(is_unit_step(arith, plan.execution[i], before[i], index, fields, second[i]));
                assert forall|a: int| 0 <= a < before[i].len() implies holds_no_string_twice(
                    #[trigger] before[i][a],
                ) by {}
                lemma_unit_step_is_determined(
                    arith,
                    plan.execution[i],
                    before[i],
                    index,
                    fields,
                    first[i],
                    second[i],
                );
            }
            assert(first =~= second);
        },
        (Some(f), Some(g)) => {
            let k = choose|k: int|
                {
                    &&& 0 <= k < plan.execution.len()
                    &&& is_unit_reading(arith, #[trigger] plan.execution[k], fields, Err(f))
                    &&& forall|j: int|
                        0 <= j < k ==> unit_reads(arith, #[trigger] plan.execution[j], fields)
                };
            let l = choose|l: int|
                {
                    &&& 0 <= l < plan.execution.len()
                    &&& is_unit_reading(arith, #[trigger] plan.execution[l], fields, Err(g))
                    &&& forall|j: int|
                        0 <= j < l ==> unit_reads(arith, #[trigger] plan.execution[j], fields)
                };
            if k < l {
                assert(unit_reads(arith, plan.execution[k], fields));
            } else if l < k {
                assert(unit_reads(arith, plan.execution[l], fields));
            } else {
                lemma_unit_reading_is_determined(arith, plan.execution[k], fields, Err(f), Err(g));
            }
        },
        (None, Some(g)) => {
            let l = choose|l: int|
                {
                    &&& 0 <= l < plan.execution.len()
                    &&& is_unit_reading(arith, #[trigger] plan.execution[l], fields, Err(g))
                    &&& forall|j: int|
                        0 <= j < l ==> unit_reads(arith, #[trigger] plan.execution[j], fields)
                };
            assert(is_unit_step(arith, plan.execution[l], before[l], index, fields, first[l]));
            assert(unit_reads(arith, plan.execution[l], fields));
        },
        (Some(f), None) => {
            let k = choose|k: int|
                {
                    &&& 0 <= k < plan.execution.len()
                    &&& is_unit_reading(arith, #[trigger] plan.execution[k], fields, Err(f))
                    &&& forall|j: int|
                        0 <= j < k ==> unit_reads(arith, #[trigger] plan.execution[j], fields)
                };
            assert(is_unit_step(arith, plan.execution[k], before[k], index, fields, second[k]));
            assert(unit_reads(arith, plan.execution[k], fields));
        },
    }
}

/// Atoms are made ready in one way: the numbers of a median atom are put
/// in order without reordering those that compare equal, and every other
/// atom stays as it is.
pub proof fn lemma_finalize_is_determined(
    start: Seq<Seq<Atom>>,
    first: Seq<Seq<Atom>>,
    second: Seq<Seq<Atom>>,
)
    requires
        states_finalized_from(first, start),
        states_finalized_from(second, start),
    ensures
        first == second,
{
    assert forall|i: int| 0 <= i < first.len() implies #[trigger] first[i] == second[i] by {
        assert(first[i].len() == start[i].len());
        assert(second[i].len() == start[i].len());
        assert forall|a: int| 0 <= a < start[i].len() implies #[trigger] first[i][a]
            == second[i][a] by {
            assert(first[i][a].is_finalized_from(start[i][a]));
            assert(second[i][a].is_finalized_from(start[i][a]));
            if start[i][a] is Numbers {
                let numbers = start[i][a]->Numbers_0;
                let one = first[i][a]->Numbers_0;
                let other = second[i][a]->Numbers_0;
                assert forall|key: int| #[trigger]
                    crate::sorting::of_key(one, key) == crate::sorting::of_key(other, key) by {
                    assert(crate::sorting::of_key(one, key) == crate::sorting::of_key(
                        numbers,
                        key,
                    ));
                    assert(crate::sorting::of_key(other, key) == crate::sorting::of_key(
                        numbers,
                        key,
                    ));
                }
                crate::sorting::lemma_sorted_is_unique(one, other);
            }
        }
        assert(first[i] =~= second[i]);
    }
    assert(first =~= second);
}

/// Under a determined arithmetic one output record comes of making atoms
/// ready and reading their answers off them.
pub proof fn lemma_finalized_output_is_determined<A: FloatArith>(
    arith: &A,
    plan: Plan,
    states: Seq<Seq<Atom>>,
    first: Seq<Seq<u8>>,
    second: Seq<Seq<u8>>,
)
    requires
        is_determined(arith),
        is_group_output(arith, plan, states, first),
        is_group_output(arith, plan, states, second),
    ensures
        first == second,
{
    let a = choose|ready: Seq<Seq<Atom>>| #[trigger]
        states_finalized_from(ready, states) && is_output_record(arith, plan, ready, first);
    let b = choose|ready: Seq<Seq<Atom>>| #[trigger]
        states_finalized_from(ready, states) && is_output_record(arith, plan, ready, second);
    lemma_finalize_is_determined(states, a, b);
    lemma_output_is_determined(arith, plan, a, first, second);
}

/// A row of a run: its index and the fields of its record.
pub type Row = (usize, Seq<Seq<u8>>);

/// Whether a program with the given plan, run on the rows in turn from the
/// states `start`, can end in the states `end`, with the given outcomes,
/// one for each row: nothing for a row that was run, the fault for a row
/// that could not be read.
pub open spec fn is_run<A: FloatArith>(
    arith: &A,
    plan: Plan,
    start: Seq<Seq<Atom>>,
    rows: Seq<Row>,
    end: Seq<Seq<Atom>>,
    outcomes: Seq<Option<Fault>>,
) -> bool
    decreases rows.len(),
{
    if rows.len() == 0 {
        end == start && outcomes.len() == 0
    } else {
        outcomes.len() == rows.len() && exists|mid: Seq<Seq<Atom>>|
            #![trigger mid.len()]
            {
                &&& is_run(arith, plan, start, rows.drop_last(), mid, outcomes.drop_last())
                &&& is_run_step(
                    arith,
                    plan,
                    mid,
                    rows.last().0,
                    rows.last().1,
                    end,
                    outcomes.last(),
                )
            }
    }
}

/// Under a determined arithmetic a run is determined by where it starts
/// and by its rows: two runs of the same rows from the same states end in
/// the same states, with the same outcome for every row.
pub proof fn lemma_run_is_determined<A: FloatArith>(
    arith: &A,
    plan: Plan,
    start: Seq<Seq<Atom>>,
    rows: Seq<Row>,
    first: Seq<Seq<Atom>>,
    first_outcomes: Seq<Option<Fault>>,
    second: Seq<Seq<Atom>>,
    second_outcomes: Seq<Option<Fault>>,
)
    requires
        is_determined(arith),
        forall|i: int| 0 <= i < rows.len() ==> plan.fits((#[trigger] rows[i]).1.len()),
        start.len() == plan.execution.len(),
        hold_no_string_twice(start),
        is_run(arith, plan, start, rows, first, first_outcomes),
        is_run(arith, plan, start, rows, second, second_outcomes),
    ensures
        first == second,
        first_outcomes == second_outcomes,
        first.len() == start.len(),
        hold_no_string_twice(first),
    decreases rows.len(),
{
    if rows.len() == 0 {
        assert(first_outcomes =~= second_outcomes);
    } else {
        let a = choose|mid: Seq<Seq<Atom>>|
            #![trigger mid.len()]
            {
                &&& is_run(arith, plan, start, rows.drop_last(), mid, first_outcomes.drop_last())
                &&& is_run_step(
                    arith,
                    plan,
                    mid,
                    rows.last().0,
                    rows.last().1,
                    first,
                    first_outcomes.last(),
                )
            };
        let b = choose|mid: Seq<Seq<Atom>>|
            #![trigger mid.len()]
            {
                &&& is_run(arith, plan, start, rows.drop_last(), mid, second_outcomes.drop_last())
                &&& is_run_step(
                    arith,
                    plan,
                    mid,
                    rows.last().0,
                    rows.last().1,
                    second,
                    second_outcomes.last(),
                )
            };
        assert forall|i: int| 0 <= i < rows.drop_last().len() implies plan.fits(
            (#[trigger] rows.drop_last()[i]).1.len(),
        ) by {
            assert(rows.drop_last()[i] == rows[i]);
        }
        lemma_run_is_determined(
            arith,
            plan,
            start,
            rows.drop_last(),
            a,
            first_outcomes.drop_last(),
            b,
            second_outcomes.drop_last(),
        );
        assert(plan.fits(rows[rows.len() - 1].1.len()));
        lemma_run_step_is_determined(
            arith,
            plan,
            a,
            rows.last().0,
            rows.last().1,
            first,
            first_outcomes.last(),
            second,
            second_outcomes.last(),
        );
        assert(first_outcomes =~= first_outcomes.drop_last().push(first_outcomes.last()));
        assert(second_outcomes =~= second_outcomes.drop_last().push(second_outcomes.last()));
    }
}

/// A program that was cleared does on the same rows what a program that
/// was just made does: under a determined arithmetic both end in the same
/// states, with the same outcome for every row, and the same output record
/// comes of both.
pub proof fn lemma_cleared_runs_as_fresh<A: FloatArith>(
    arith: &A,
    plan: Plan,
    cleared: Seq<Seq<Atom>>,
    made: Seq<Seq<Atom>>,
    rows: Seq<Row>,
    first: Seq<Seq<Atom>>,
    first_outcomes: Seq<Option<Fault>>,
    second: Seq<Seq<Atom>>,
    second_outcomes: Seq<Option<Fault>>,
)
    requires
        is_determined(arith),
        forall|i: int| 0 <= i < rows.len() ==> plan.fits((#[trigger] rows[i]).1.len()),
        states_match(cleared, plan),
        states_fresh(cleared),
        states_match(made, plan),
        states_fresh(made),
        is_run(arith, plan, cleared, rows, first, first_outcomes),
        is_run(arith, plan, made, rows, second, second_outcomes),
    ensures
        first == second,
        first_outcomes == second_outcomes,
        forall|one: Seq<Seq<u8>>, other: Seq<Seq<u8>>|
            is_group_output(arith, plan, first, one) && is_group_output(
                arith,
                plan,
                second,
                other,
            ) ==> one == other,
{
    crate::laws::lemma_cleared_is_fresh(plan, cleared, made);
    assert forall|i: int, a: int|
        0 <= i < cleared.len() && 0 <= a < cleared[i].len() implies holds_no_string_twice(
        #[trigger] cleared[i][a],
    ) by {
        assert(crate::composite::all_fresh(cleared[i]));
        assert(cleared[i][a] == Atom::fresh(cleared[i][a].kind()));
    }
    lemma_run_is_determined(
        arith,
        plan,
        cleared,
        rows,
        first,
        first_outcomes,
        second,
        second_outcomes,
    );
    assert forall|one: Seq<Seq<u8>>, other: Seq<Seq<u8>>|
        is_group_output(arith, plan, first, one) && is_group_output(
            arith,
            plan,
            second,
            other,
        ) implies one == other by {
        lemma_finalized_output_is_determined(arith, plan, first, one, other);
    }
}

/// Under a determined arithmetic an aggregation is bound to a header in
/// one way.
pub proof fn lemma_request_is_determined<A: FloatArith>(
    arith: &A,
    aggregation: AggregationSyntax,
    headers: Seq<Seq<u8>>,
    first: Result<Request, Rejection>,
    second: Result<Request, Rejection>,
)
    requires
        is_determined(arith),
        headers.len() <= usize::MAX,
        is_request(arith, aggregation, headers, first),
        is_request(arith, aggregation, headers, second),
    ensures
        first == second,
{
    if arity_rejection(aggregation.func_name, aggregation.args.len()) is None {
        assert forall|m: Result<Option<Bound>, Rejection>, n: Result<Option<Bound>, Rejection>|
            is_argument(arith, aggregation.args, headers, m) && is_argument(
                arith,
                aggregation.args,
                headers,
                n,
            ) implies m == n by {
            if aggregation.args.len() > 0 {
                let a = match m {
                    Ok(expr) => Ok::<Bound, Rejection>(expr->0),
                    Err(rejection) => Err::<Bound, Rejection>(rejection),
                };
                let b = match n {
                    Ok(expr) => Ok::<Bound, Rejection>(expr->0),
                    Err(rejection) => Err::<Bound, Rejection>(rejection),
                };
                lemma_binding_is_determined(arith, aggregation.args[0], headers, a, b);
            }
        }
    }
}

/// Under a determined arithmetic an aggregation list under a header has
/// one plan, or is rejected for one reason.
pub proof fn lemma_planning_is_determined<A: FloatArith>(
    arith: &A,
    aggregations: Seq<AggregationSyntax>,
    headers: Seq<Seq<u8>>,
    first: Result<Plan, Rejection>,
    second: Result<Plan, Rejection>,
)
    requires
        is_determined(arith),
        headers.len() <= usize::MAX,
        is_planning(arith, aggregations, headers, first),
        is_planning(arith, aggregations, headers, second),
    ensures
        first == second,
{
    let a = choose|requests: Result<Seq<Request>, Rejection>| #[trigger]
        are_requests(arith, aggregations, headers, requests) && first == match requests {
            Ok(all) => Ok::<Plan, Rejection>(plan_of(all)),
            Err(rejection) => Err::<Plan, Rejection>(rejection),
        };
    let b = choose|requests: Result<Seq<Request>, Rejection>| #[trigger]
        are_requests(arith, aggregations, headers, requests) && second == match requests {
            Ok(all) => Ok::<Plan, Rejection>(plan_of(all)),
            Err(rejection) => Err::<Plan, Rejection>(rejection),
        };
    let one = choose|requests: Seq<Request>|
        #![trigger requests.len()]
        {
            &&& requests.len() <= aggregations.len()
            &&& forall|j: int|
                0 <= j < requests.len() ==> is_request(
                    arith,
                    aggregations[j],
                    headers,
                    Ok(#[trigger] requests[j]),
                )
            &&& if requests.len() == aggregations.len() {
                a == Ok::<Seq<Request>, Rejection>(requests)
            } else {
                a matches Err(rejection) && is_request(
                    arith,
                    aggregations[requests.len() as int],
                    headers,
                    Err(rejection),
                )
            }
        };
    let other = choose|requests: Seq<Request>|
        #![trigger requests.len()]
        {
            &&& requests.len() <= aggregations.len()
            &&& forall|j: int|
                0 <= j < requests.len() ==> is_request(
                    arith,
                    aggregations[j],
                    headers,
                    Ok(#[trigger] requests[j]),
                )
            &&& if requests.len() == aggregations.len() {
                b == Ok::<Seq<Request>, Rejection>(requests)
            } else {
                b matches Err(rejection) && is_request(
                    arith,
                    aggregations[requests.len() as int],
                    headers,
                    Err(rejection),
                )
            }
        };
    assert forall|j: int| 0 <= j < one.len() && j < other.len() implies one[j] == other[j] by {
        lemma_request_is_determined(arith, aggregations[j], headers, Ok(one[j]), Ok(other[j]));
    }
    if one.len() < other.len() {
        lemma_request_is_determined(
            arith,
            aggregations[one.len() as int],
            headers,
            Err(a->Err_0),
            Ok(other[one.len() as int]),
        );
    } else if other.len() < one.len() {
        lemma_request_is_determined(
            arith,
            aggregations[other.len() as int],
            headers,
            Ok(one[other.len() as int]),
            Err(b->Err_0),
        );
    } else if one.len() < aggregations.len() {
        lemma_request_is_determined(
            arith,
            aggregations[one.len() as int],
            headers,
            Err(a->Err_0),
            Err(b->Err_0),
        );
    } else {
        assert(one =~= other);
    }
}

/// The states of every group are states of the plan's units that hold no
/// string twice.
pub open spec fn groups_in_shape(plan: Plan, groups: Seq<Group>) -> bool {
    forall|g: int|
        0 <= g < groups.len() ==> (#[trigger] groups[g]).1.len() == plan.execution.len()
            && hold_no_string_twice(groups[g].1)
}

/// Under a determined arithmetic a grouping program moves in one way when
/// it is run on a record for a key: from the same groups the same record
/// leads to the same groups and the same outcome.
pub proof fn lemma_group_step_is_determined<A: FloatArith>(
    arith: &A,
    plan: Plan,
    before: Seq<Group>,
    key: Seq<u8>,
    index: usize,
    fields: Seq<Seq<u8>>,
    first: Seq<Group>,
    first_outcome: Option<Fault>,
    second: Seq<Group>,
    second_outcome: Option<Fault>,
)
    requires
        is_determined(arith),
        plan.fits(fields.len()),
        groups_in_shape(plan, before),
        is_group_step(arith, plan, before, key, index, fields, first, first_outcome),
        is_group_step(arith, plan, before, key, index, fields, second, second_outcome),
    ensures
        first == second,
        first_outcome == second_outcome,
        groups_in_shape(plan, first),
{
    lemma_group_index(before, key, 0);
    let start = group_start(plan, before, key);
    assert(start.len() == plan.execution.len() && hold_no_string_twice(start)) by {
        match group_index(before, key, 0) {
            Some(g) => {
                assert(before[g].1.len() == plan.execution.len());
            },
            None => {
                assert forall|i: int, a: int|
                    0 <= i < start.len() && 0 <= a < start[i].len() implies holds_no_string_twice(
                    #[trigger] start[i][a],
                ) by {
                    assert(start[i][a] == Atom::fresh(plan.execution[i].kinds[a]));
                }
            },
        }
    }
    let one = match first_outcome {
        Some(_) => start,
        None => match group_index(before, key, 0) {
            Some(g) => first[g].1,
            None => first.last().1,
        },
    };
    let other = match second_outcome {
        Some(_) => start,
        None => match group_index(before, key, 0) {
            Some(g) => second[g].1,
            None => second.last().1,
        },
    };
    assert(is_run_step(arith, plan, start, index, fields, one, first_outcome));
    assert(is_run_step(arith, plan, start, index, fields, other, second_outcome));
    lemma_run_step_is_determined(
        arith,
        plan,
        start,
        index,
        fields,
        one,
        first_outcome,
        other,
        second_outcome,
    );
    if first_outcome is None {
        assert(first.len() == second.len());
        assert forall|j: int| 0 <= j < first.len() implies first[j] == second[j] by {
            match group_index(before, key, 0) {
                Some(g) => {
                    if j == g {
                        assert(first[j].0 == second[j].0 && first[j].1 == second[j].1);
                    } else {
                        assert(first[j] == before[j] && second[j] == before[j]);
                    }
                },
                None => {
                    if j == before.len() {
                        assert(first[j] == first.last() && second[j] == second.last());
                        assert(first[j].0 == second[j].0 && first[j].1 == second[j].1);
                    } else {
                        assert(first[j] == before[j] && second[j] == before[j]);
                    }
                },
            }
        }
        assert(first =~= second);
        assert forall|g: int| 0 <= g < first.len() implies (#[trigger] first[g]).1.len()
            == plan.execution.len() && hold_no_string_twice(first[g].1) by {
            match group_index(before, key, 0) {
                Some(at) => {
                    if g != at {
                        assert(first[g] == before[g]);
                    }
                },
                None => {
                    if g < before.len() {
                        assert(first[g] == before[g]);
                    } else {
                        assert(first[g] == first.last());
                    }
                },
            }
        }
    }
}

/// An expression that is parsed, written in canonical form, read back and
/// bound to the same header is bound to the same tree, or rejected for the
/// same reason, under a determined arithmetic.
pub proof fn lemma_round_trip_binds_alike<A: FloatArith>(
    arith: &A,
    source: Seq<u8>,
    e: Syntax,
    back: Syntax,
    headers: Seq<Seq<u8>>,
    first: Result<Bound, Rejection>,
    second: Result<Bound, Rejection>,
)
    requires
        is_determined(arith),
        headers.len() <= usize::MAX,
        expression_of(source) == Some(e),
        expression_of(e.canonical()) == Some(back),
        is_binding(arith, e, headers, first),
        is_binding(arith, back, headers, second),
    ensures
        first == second,
{
    lemma_round_trip(source, e);
    lemma_binding_is_determined(arith, e, headers, first, second);
}

} // verus!
