//! Laws of the engine: what holds of every aggregation list, of every
//! stream of records and of every state.

use vstd::prelude::*;
use vstd::wrapping::i64_specs::wrapping_add;
use crate::atoms::{extent_step, sum_step};
use crate::composite::{atoms_count_at_most, Atom};
use crate::number::DynamicNumber;
use crate::planner::{
    kind_index,
    lemma_kind_index,
    lemma_plan_well_formed,
    lemma_unit_for,
    plan_of,
    plan_step,
    serves,
    states_count_at_most,
    states_fresh,
    states_match,
    unit_for,
    OutputPlan,
    Plan,
    Request,
    UnitPlan,
};
use crate::program::{fresh_states, is_output_record, lemma_fresh_states, states_finalized_from};

verus! {

/// The output plan follows the aggregation list: it has one entry for each
/// aggregation, in the order of the list, under the aggregation's name and
/// with its method.
pub proof fn lemma_outputs_follow_requests(requests: Seq<Request>)
    ensures
        plan_of(requests).output.len() == requests.len(),
        forall|i: int|
            0 <= i < requests.len() ==> (#[trigger] plan_of(requests).output[i]).agg_name
                == requests[i].agg_name && plan_of(requests).output[i].agg_method
                == requests[i].method,
    decreases requests.len(),
{
    if requests.len() > 0 {
        let earlier = requests.drop_last();
        lemma_outputs_follow_requests(earlier);
        let plan = plan_of(earlier);
        let next = plan_step(plan, requests.last());
        assert(next.output == plan.output.push(next.output.last()));
        assert forall|i: int| 0 <= i < requests.len() implies (#[trigger] next.output[i]).agg_name
            == requests[i].agg_name && next.output[i].agg_method == requests[i].method by {
            if i < earlier.len() {
                assert(next.output[i] == plan.output[i]);
                assert(earlier[i] == requests[i]);
            }
        }
    }
}

/// The expressions of a plan are expressions of its requests: where every
/// request reads columns below a width, so does the plan.
pub proof fn lemma_plan_reads_columns(requests: Seq<Request>, width: nat)
    requires
        forall|i: int| 0 <= i < requests.len() ==> (#[trigger] requests[i]).fits(width),
    ensures
        plan_of(requests).fits(width),
    decreases requests.len(),
{
    if requests.len() > 0 {
        let earlier = requests.drop_last();
        assert forall|i: int| 0 <= i < earlier.len() implies (#[trigger] earlier[i]).fits(
            width,
        ) by {
            assert(earlier[i] == requests[i]);
        }
        lemma_plan_reads_columns(earlier, width);
        let plan = plan_of(earlier);
        let next = plan_step(plan, requests.last());
        assert(requests.last().fits(width));
        crate::planner::lemma_unit_for(plan.execution, requests.last(), 0);
        assert forall|i: int| 0 <= i < next.execution.len() implies ((
        #[trigger] next.execution[i]).expr matches Some(e) ==> e.fits(width)) by {
            if i < plan.execution.len() {
                assert(next.execution[i].expr == plan.execution[i].expr);
                assert(plan.execution[i].expr matches Some(e) ==> e.fits(width));
            } else {
                assert(next.execution[i].expr == requests.last().expr);
            }
        }
    }
}

/// Making atoms ready for answering changes no count.
pub proof fn lemma_finalize_keeps_counts(before: Seq<Seq<Atom>>, after: Seq<Seq<Atom>>, bound: nat)
    requires
        states_finalized_from(after, before),
        states_count_at_most(before, bound),
    ensures
        states_count_at_most(after, bound),
{
    assert forall|i: int| 0 <= i < after.len() implies atoms_count_at_most(
        #[trigger] after[i],
        bound,
    ) by {
        assert(atoms_count_at_most(before[i], bound));
        assert forall|a: int| 0 <= a < after[i].len() implies (
        #[trigger] after[i][a]).counts_at_most(bound) by {
            assert(after[i][a].is_finalized_from(before[i][a]));
            assert(before[i][a].counts_at_most(bound));
        }
    }
}

/// No two units serve the same requests: they differ in their key, or one
/// has an expression and the other has none.
pub open spec fn units_distinct(units: Seq<UnitPlan>) -> bool {
    forall|a: int, b: int|
        0 <= a < b < units.len() ==> !((#[trigger] units[a]).expr_key == (#[trigger] units[b]).expr_key
            && (units[a].expr is None) == (units[b].expr is None))
}

/// Output `j` of the plan points at the unit that serves request `j`, and
/// in it at an atom of the kind of the request's method.
pub open spec fn points_home(plan: Plan, requests: Seq<Request>, j: int) -> bool {
    let out = plan.output[j];
    &&& out.expr_index < plan.execution.len()
    &&& serves(plan.execution[out.expr_index as int], requests[j])
    &&& out.aggregator_index < plan.execution[out.expr_index as int].kinds.len()
    &&& plan.execution[out.expr_index as int].kinds[out.aggregator_index as int]
        == requests[j].method.spec_kind()
}

/// Unit `u` of the plan serves one of the requests.
pub open spec fn is_needed(plan: Plan, requests: Seq<Request>, u: int) -> bool {
    exists|j: int| 0 <= j < requests.len() && serves(plan.execution[u], #[trigger] requests[j])
}

/// The plan of a list of requests holds exactly one unit for each distinct
/// expression among them: no two units serve the same requests, every
/// request is served by the unit that its output points at, and every unit
/// serves a request.
pub proof fn lemma_one_unit_per_expression(requests: Seq<Request>)
    ensures
        units_distinct(plan_of(requests).execution),
        plan_of(requests).output.len() == requests.len(),
        forall|j: int| 0 <= j < requests.len() ==> #[trigger] points_home(plan_of(requests), requests, j),
        forall|u: int|
            0 <= u < plan_of(requests).execution.len() ==> #[trigger] is_needed(
                plan_of(requests),
                requests,
                u,
            ),
    decreases requests.len(),
{
    lemma_outputs_follow_requests(requests);
    if requests.len() > 0 {
        let earlier = requests.drop_last();
        let request = requests.last();
        lemma_one_unit_per_expression(earlier);
        lemma_outputs_follow_requests(earlier);
        let plan = plan_of(earlier);
        let next = plan_step(plan, request);
        let kind = request.method.spec_kind();
        lemma_unit_for(plan.execution, request, 0);
        match unit_for(plan.execution, request, 0) {
            Some(index) => {
                lemma_kind_index(plan.execution[index].kinds, kind, 0);
            },
            None => {},
        }
        assert forall|a: int, b: int| 0 <= a < b < next.execution.len() implies !((
        #[trigger] next.execution[a]).expr_key == (#[trigger] next.execution[b]).expr_key && (
        next.execution[a].expr is None) == (next.execution[b].expr is None)) by {
            if b < plan.execution.len() {
                assert(next.execution[a].expr_key == plan.execution[a].expr_key);
                assert(next.execution[b].expr_key == plan.execution[b].expr_key);
                assert(next.execution[a].expr == plan.execution[a].expr);
                assert(next.execution[b].expr == plan.execution[b].expr);
            } else {
                assert(!serves(plan.execution[a], request));
            }
        }
        assert forall|j: int| 0 <= j < requests.len() implies #[trigger] points_home(
            next,
            requests,
            j,
        ) by {
            if j < earlier.len() {
                assert(points_home(plan, earlier, j));
                assert(earlier[j] == requests[j]);
                assert(next.output[j] == plan.output[j]);
            }
        }
        assert forall|u: int| 0 <= u < next.execution.len() implies #[trigger] is_needed(
            next,
            requests,
            u,
        ) by {
            if u < plan.execution.len() {
                assert(is_needed(plan, earlier, u));
                let j = choose|j: int|
                    0 <= j < earlier.len() && serves(plan.execution[u], #[trigger] earlier[j]);
                assert(earlier[j] == requests[j]);
                assert(serves(next.execution[u], requests[j]));
            } else {
                assert(serves(next.execution[u], requests[requests.len() - 1]));
            }
        }
    }
}

/// The canonical text of an expression that the grammar can yield is not
/// empty.
pub proof fn lemma_canonical_is_not_empty(e: crate::parser::Syntax)
    requires
        e.well_formed(),
    ensures
        e.canonical().len() > 0,
{
    match e {
        crate::parser::Syntax::Integer(value) => {
            assert(crate::text::decimal_digits(value as nat).len() > 0);
        },
        crate::parser::Syntax::Float(numeral) => {
            crate::parser::lemma_run_end(numeral, 0, crate::parser::ByteClass::Digit);
        },
        crate::parser::Syntax::Boolean(_) | crate::parser::Syntax::Null => {
            crate::round_trip::lemma_keywords();
        },
        _ => {},
    }
}

/// Whether the requests tell by their keys which of them have an argument:
/// the key is empty exactly where there is none.
pub open spec fn keys_tell_arguments(requests: Seq<Request>) -> bool {
    forall|j: int|
        0 <= j < requests.len() ==> ((#[trigger] requests[j]).expr is None) == (
        requests[j].expr_key.len() == 0)
}

/// The requests that a parsed aggregation list asks for tell by their keys
/// which of them have an argument: the key of an argument is its canonical
/// text, which is not empty.
pub proof fn lemma_parsed_requests_are_keyed(
    source: Seq<u8>,
    aggregations: Seq<crate::parser::AggregationSyntax>,
    requests: Seq<Request>,
)
    requires
        crate::parser::aggregations_of(source) == Some(aggregations),
        crate::planner::answer_all(requests, aggregations),
    ensures
        keys_tell_arguments(requests),
{
    assert forall|j: int| 0 <= j < requests.len() implies ((#[trigger] requests[j]).expr is None)
        == (requests[j].expr_key.len() == 0) by {
        assert(crate::planner::answers(requests[j], aggregations[j]));
        if aggregations[j].args.len() > 0 {
            crate::round_trip::lemma_key_reads_back(source, aggregations, j);
            crate::round_trip::lemma_round_trip(
                aggregations[j].expr_key,
                aggregations[j].args[0],
            );
            lemma_canonical_is_not_empty(aggregations[j].args[0]);
        } else {
            crate::parser::lemma_run_end(source, 0, crate::parser::ByteClass::Space);
            crate::round_trip::lemma_aggregations_keyed(
                source,
                crate::parser::run_end(source, 0, crate::parser::ByteClass::Space),
            );
            assert(crate::round_trip::is_keyed(aggregations[j]));
        }
    }
}

/// Some aggregation of the list has the key.
pub open spec fn is_key_of(
    aggregations: Seq<crate::parser::AggregationSyntax>,
    key: Seq<u8>,
) -> bool {
    exists|j: int| 0 <= j < aggregations.len() && (#[trigger] aggregations[j]).expr_key == key
}

/// The plan of a parsed aggregation list holds exactly one unit for each
/// distinct expression key of the list: no two units have the same key,
/// every aggregation is served by a unit of its key, and every unit bears
/// the key of an aggregation.
pub proof fn lemma_one_unit_per_key(
    source: Seq<u8>,
    aggregations: Seq<crate::parser::AggregationSyntax>,
    requests: Seq<Request>,
)
    requires
        crate::parser::aggregations_of(source) == Some(aggregations),
        crate::planner::answer_all(requests, aggregations),
    ensures
        forall|a: int, b: int|
            0 <= a < b < plan_of(requests).execution.len() ==> (#[trigger] plan_of(
                requests,
            ).execution[a]).expr_key != (#[trigger] plan_of(requests).execution[b]).expr_key,
        forall|j: int|
            0 <= j < aggregations.len() ==> plan_of(requests).execution[(#[trigger] plan_of(
                requests,
            ).output[j]).expr_index as int].expr_key == aggregations[j].expr_key,
        forall|u: int|
            0 <= u < plan_of(requests).execution.len() ==> is_key_of(
                aggregations,
                (#[trigger] plan_of(requests).execution[u]).expr_key,
            ),
{
    let plan = plan_of(requests);
    lemma_parsed_requests_are_keyed(source, aggregations, requests);
    lemma_one_unit_per_expression(requests);
    assert forall|u: int| 0 <= u < plan.execution.len() implies (plan.execution[u].expr is None)
        == (plan.execution[u].expr_key.len() == 0) && is_key_of(
        aggregations,
        (#[trigger] plan.execution[u]).expr_key,
    ) by {
        assert(is_needed(plan, requests, u));
        let j = choose|j: int|
            0 <= j < requests.len() && serves(plan.execution[u], #[trigger] requests[j]);
        assert(crate::planner::answers(requests[j], aggregations[j]));
        assert(aggregations[j].expr_key == plan.execution[u].expr_key);
    }
    assert forall|a: int, b: int| 0 <= a < b < plan.execution.len() implies (
    #[trigger] plan.execution[a]).expr_key != (#[trigger] plan.execution[b]).expr_key by {
        assert((plan.execution[a].expr is None) == (plan.execution[a].expr_key.len() == 0));
        assert((plan.execution[b].expr is None) == (plan.execution[b].expr_key.len() == 0));
    }
    assert forall|j: int| 0 <= j < aggregations.len() implies plan.execution[(
    #[trigger] plan.output[j]).expr_index as int].expr_key == aggregations[j].expr_key by {
        assert(points_home(plan, requests, j));
        assert(crate::planner::answers(requests[j], aggregations[j]));
    }
}

/// The plan of requests that are what an aggregation list asks for answers
/// the list: one output column for each aggregation, in the order of the
/// list, under its name, with its method, fed by the expression of its key.
pub proof fn lemma_plan_answers(
    requests: Seq<Request>,
    aggregations: Seq<crate::parser::AggregationSyntax>,
)
    requires
        crate::planner::answer_all(requests, aggregations),
    ensures
        crate::planner::plan_answers(plan_of(requests), aggregations),
{
    lemma_one_unit_per_expression(requests);
    lemma_outputs_follow_requests(requests);
    let plan = plan_of(requests);
    assert forall|i: int| 0 <= i < aggregations.len() implies crate::planner::output_answers(
        plan,
        i,
        #[trigger] aggregations[i],
    ) by {
        assert(points_home(plan, requests, i));
        assert(crate::planner::answers(requests[i], aggregations[i]));
    }
}

/// Adding an aggregation that repeats an earlier one, under whatever name,
/// leaves the execution plan as it is and appends one entry to the output
/// plan, which points where the entry of the earlier one points.
pub proof fn lemma_duplicate_adds_only_an_output(requests: Seq<Request>, j: int, extra: Request)
    requires
        forall|i: int| 0 <= i < requests.len() ==> (#[trigger] requests[i]).well_formed(),
        0 <= j < requests.len(),
        extra.expr_key == requests[j].expr_key,
        (extra.expr is None) == (requests[j].expr is None),
        extra.method.spec_kind() == requests[j].method.spec_kind(),
    ensures
        plan_of(requests.push(extra)).execution == plan_of(requests).execution,
        plan_of(requests.push(extra)).output == plan_of(requests).output.push(
            OutputPlan {
                expr_index: plan_of(requests).output[j].expr_index,
                aggregator_index: plan_of(requests).output[j].aggregator_index,
                agg_name: extra.agg_name,
                agg_method: extra.method,
            },
        ),
{
    let plan = plan_of(requests);
    let kind = extra.method.spec_kind();
    assert(requests.push(extra).drop_last() =~= requests);
    assert(requests.push(extra).last() == extra);
    lemma_one_unit_per_expression(requests);
    lemma_plan_well_formed(requests);
    assert(points_home(plan, requests, j));
    let out = plan.output[j];
    let home = out.expr_index as int;
    assert(serves(plan.execution[home], extra));
    lemma_unit_for(plan.execution, extra, 0);
    let found = unit_for(plan.execution, extra, 0);
    assert(found is Some);
    let index = found.unwrap();
    assert(index == home) by {
        if index < home {
            assert(!((plan.execution[index]).expr_key == (plan.execution[home]).expr_key && (
            plan.execution[index].expr is None) == (plan.execution[home].expr is None)));
        }
    }
    let kinds = plan.execution[home].kinds;
    lemma_kind_index(kinds, kind, 0);
    assert(kinds[out.aggregator_index as int] == kind);
    let at = kind_index(kinds, kind, 0);
    assert(at is Some);
    assert(at.unwrap() == out.aggregator_index) by {
        if at.unwrap() < out.aggregator_index {
            assert(plan.execution[home].kinds[at.unwrap()] != plan.execution[home].kinds[out.aggregator_index as int]);
        }
    }
}

/// The integer that is congruent to `x` modulo `2^64` and fits a machine
/// integer.
pub open spec fn wrapped(x: int) -> i64 {
    ((x + 0x8000_0000_0000_0000) % 0x1_0000_0000_0000_0000 - 0x8000_0000_0000_0000) as i64
}

/// The sum of the integers, as a mathematical integer.
pub open spec fn integer_total(values: Seq<i64>) -> int
    decreases values.len(),
{
    if values.len() == 0 {
        0
    } else {
        integer_total(values.drop_last()) + values.last()
    }
}

/// Whether `sums` are the states that a running sum goes through when it
/// takes the integers `values` in turn, starting from nothing.
pub open spec fn is_integer_summation(values: Seq<i64>, sums: Seq<DynamicNumber>) -> bool {
    &&& sums.len() == values.len() + 1
    &&& sums[0] == DynamicNumber::Integer(0)
    &&& forall|i: int|
        0 <= i < values.len() ==> sum_step(
            #[trigger] sums[i],
            DynamicNumber::Integer(values[i]),
            sums[i + 1],
        )
}

/// Adding machine integers wraps the mathematical sum.
pub proof fn lemma_wrapping_add(a: i64, b: i64)
    ensures
        wrapping_add(a, b) == wrapped(a + b),
{
}

/// Wrapping twice is wrapping once.
pub proof fn lemma_wrapped_add(x: int, b: int)
    ensures
        wrapped(wrapped(x) + b) == wrapped(x + b),
{
    let m = 0x1_0000_0000_0000_0000int;
    let h = 0x8000_0000_0000_0000int;
    let r = (x + h) % m;
    vstd::arithmetic::div_mod::lemma_fundamental_div_mod(x + h, m);
    let q = (x + h) / m;
    assert(x + h == m * q + r);
    assert(wrapped(x) == r - h);
    assert(wrapped(x) + b + h == x + b + h - m * q);
    vstd::arithmetic::div_mod::lemma_mod_multiples_vanish(-q, x + b + h, m);
    assert(m * (-q) + (x + b + h) == x + b + h - m * q) by (nonlinear_arith);
}

/// Over integers a running sum holds the mathematical sum of what it has
/// taken, wrapped into the range of a machine integer. So it does not
/// depend on the order or on the grouping of its inputs, and it is the
/// mathematical sum exactly wherever that fits a machine integer.
pub proof fn lemma_integer_sum(values: Seq<i64>, sums: Seq<DynamicNumber>)
    requires
        is_integer_summation(values, sums),
    ensures
        sums.last() == DynamicNumber::Integer(wrapped(integer_total(values))),
        i64::MIN <= integer_total(values) <= i64::MAX ==> sums.last() == DynamicNumber::Integer(
            integer_total(values) as i64,
        ),
    decreases values.len(),
{
    if values.len() == 0 {
        assert(sums.last() == sums[0]);
    } else {
        let earlier = values.drop_last();
        let before = sums.drop_last();
        assert forall|i: int| 0 <= i < earlier.len() implies sum_step(
            #[trigger] before[i],
            DynamicNumber::Integer(earlier[i]),
            before[i + 1],
        ) by {
            assert(sum_step(sums[i], DynamicNumber::Integer(values[i]), sums[i + 1]));
        }
        lemma_integer_sum(earlier, before);
        let n = values.len() as int;
        assert(before.last() == sums[n - 1]);
        assert(sum_step(sums[n - 1], DynamicNumber::Integer(values[n - 1]), sums[n]));
        let held = wrapped(integer_total(earlier));
        lemma_wrapping_add(held, values.last());
        lemma_wrapped_add(integer_total(earlier), values.last() as int);
    }
}

/// The mathematical sum of integers does not depend on their order: the
/// sum of two runs is the sum of their sums, whichever comes first.
pub proof fn lemma_total_of_runs(a: Seq<i64>, b: Seq<i64>)
    ensures
        integer_total(a + b) == integer_total(a) + integer_total(b),
        integer_total(a + b) == integer_total(b + a),
    decreases b.len(),
{
    lemma_total_append(a, b);
    lemma_total_append(b, a);
}

/// The mathematical sum of two runs is the sum of their sums.
pub proof fn lemma_total_append(a: Seq<i64>, b: Seq<i64>)
    ensures
        integer_total(a + b) == integer_total(a) + integer_total(b),
    decreases b.len(),
{
    if b.len() == 0 {
        assert(a + b =~= a);
    } else {
        assert((a + b).drop_last() =~= a + b.drop_last());
        assert((a + b).last() == b.last());
        lemma_total_append(a, b.drop_last());
    }
}

/// The mathematical sum of integers is the sum without one of them, plus
/// that one.
pub proof fn lemma_total_without(values: Seq<i64>, k: int)
    requires
        0 <= k < values.len(),
    ensures
        integer_total(values) == integer_total(values.remove(k)) + values[k],
    decreases values.len(),
{
    let last = values.len() - 1;
    if k == last {
        assert(values.remove(k) =~= values.drop_last());
    } else {
        lemma_total_without(values.drop_last(), k);
        assert(values.remove(k).drop_last() =~= values.drop_last().remove(k));
        assert(values.remove(k).last() == values.last());
    }
}

/// The mathematical sum of integers does not depend on their order: two
/// sequences that hold the same integers as often have the same sum.
pub proof fn lemma_total_of_permutation(a: Seq<i64>, b: Seq<i64>)
    requires
        a.to_multiset() == b.to_multiset(),
    ensures
        integer_total(a) == integer_total(b),
    decreases a.len(),
{
    a.to_multiset_ensures();
    b.to_multiset_ensures();
    assert(a.len() == a.to_multiset().len());
    assert(b.len() == b.to_multiset().len());
    if a.len() > 0 {
        let last = a.last();
        let shorter = a.drop_last();
        shorter.to_multiset_ensures();
        assert(a =~= shorter.push(last));
        assert(a.contains(last)) by {
            assert(a[a.len() - 1] == last);
        }
        assert(a.to_multiset().count(last) > 0);
        assert(b.contains(last));
        let k = choose|k: int| 0 <= k < b.len() && b[k] == last;
        let rest = b.remove(k);
        assert(shorter.to_multiset() =~= a.to_multiset().remove(last));
        assert(rest.to_multiset() =~= b.to_multiset().remove(last));
        lemma_total_of_permutation(shorter, rest);
        lemma_total_without(b, k);
    }
}

/// Over integers a running sum does not depend on the order of what it
/// takes: fed the same integers in any two orders it ends with the same
/// sum.
pub proof fn lemma_sum_is_order_free(
    a: Seq<i64>,
    sums_a: Seq<DynamicNumber>,
    b: Seq<i64>,
    sums_b: Seq<DynamicNumber>,
)
    requires
        a.to_multiset() == b.to_multiset(),
        is_integer_summation(a, sums_a),
        is_integer_summation(b, sums_b),
    ensures
        sums_a.last() == sums_b.last(),
{
    lemma_total_of_permutation(a, b);
    lemma_integer_sum(a, sums_a);
    lemma_integer_sum(b, sums_b);
}

/// The least and the greatest of the numbers, found as an extent finds
/// them: taking the numbers in turn, starting from nothing.
pub open spec fn extent_of(values: Seq<DynamicNumber>) -> Option<(DynamicNumber, DynamicNumber)>
    decreases values.len(),
{
    if values.len() == 0 {
        None
    } else {
        extent_step(extent_of(values.drop_last()), values.last())
    }
}

/// The extent of numbers bounds them: its least number comes before none
/// of them and its greatest after none of them, and both are among them.
pub proof fn lemma_extent_bounds(values: Seq<DynamicNumber>)
    ensures
        values.len() == 0 <==> extent_of(values) is None,
        extent_of(values) matches Some(pair) ==> {
            &&& values.contains(pair.0)
            &&& values.contains(pair.1)
            &&& pair.0.key() <= pair.1.key()
            &&& forall|i: int|
                0 <= i < values.len() ==> pair.0.key() <= (#[trigger] values[i]).key() <= pair.1.key()
        },
    decreases values.len(),
{
    if values.len() > 0 {
        let earlier = values.drop_last();
        lemma_extent_bounds(earlier);
        let n = values.len() as int;
        match extent_of(values) {
            Some(pair) => {
                assert(values[n - 1] == values.last());
                match extent_of(earlier) {
                    Some(old) => {
                        let a = choose|a: int| 0 <= a < earlier.len() && earlier[a] == old.0;
                        let b = choose|b: int| 0 <= b < earlier.len() && earlier[b] == old.1;
                        assert(values[a] == old.0);
                        assert(values[b] == old.1);
                    },
                    None => {},
                }
                assert forall|i: int| 0 <= i < values.len() implies pair.0.key() <= (
                #[trigger] values[i]).key() <= pair.1.key() by {
                    if i < earlier.len() {
                        assert(earlier[i] == values[i]);
                    }
                }
            },
            None => {},
        }
    }
}

/// Making atoms ready twice is making them ready once: atoms that are ready
/// stay as they are, so the same output record is read off them.
pub proof fn lemma_finalize_is_idempotent<A: crate::number::FloatArith>(
    arith: &A,
    plan: Plan,
    start: Seq<Seq<Atom>>,
    once: Seq<Seq<Atom>>,
    twice: Seq<Seq<Atom>>,
    fields: Seq<Seq<u8>>,
)
    requires
        states_finalized_from(once, start),
        states_finalized_from(twice, once),
    ensures
        twice == once,
        is_output_record(arith, plan, once, fields) == is_output_record(arith, plan, twice, fields),
{
    assert forall|i: int| 0 <= i < once.len() implies #[trigger] twice[i] == once[i] by {
        assert(twice[i].len() == once[i].len());
        assert forall|a: int| 0 <= a < once[i].len() implies #[trigger] twice[i][a]
            == once[i][a] by {
            assert(once[i][a].is_finalized_from(start[i][a]));
            assert(twice[i][a].is_finalized_from(once[i][a]));
            if once[i][a] is Numbers {
                crate::sorting::lemma_sorted_is_unique(
                    twice[i][a]->Numbers_0,
                    once[i][a]->Numbers_0,
                );
            }
        }
        assert(twice[i] =~= once[i]);
    }
    assert(twice =~= once);
}

/// A cleared program is in the state of a program that was just made: the
/// states of its atoms are those in which the plan's units start. What it
/// does from there on is what a fresh program does.
pub proof fn lemma_cleared_is_fresh(plan: Plan, cleared: Seq<Seq<Atom>>, made: Seq<Seq<Atom>>)
    requires
        states_match(cleared, plan),
        states_fresh(cleared),
        states_match(made, plan),
        states_fresh(made),
    ensures
        cleared == made,
        cleared == fresh_states(plan),
{
    lemma_fresh_states(plan, cleared);
    lemma_fresh_states(plan, made);
}

/// Some group has the key.
pub open spec fn has_group(groups: Seq<crate::program::Group>, key: Seq<u8>) -> bool {
    exists|i: int| 0 <= i < groups.len() && (#[trigger] groups[i]).0 == key
}

/// Running a record changes the groups by at most its own: a record that
/// is run leaves its group among the groups, every other key is among the
/// groups after the run exactly if it was before, and no key comes twice. A
/// record that fails changes no group.
pub proof fn lemma_group_step_keys<A: crate::number::FloatArith>(
    arith: &A,
    plan: Plan,
    before: Seq<crate::program::Group>,
    key: Seq<u8>,
    index: usize,
    fields: Seq<Seq<u8>>,
    after: Seq<crate::program::Group>,
    outcome: Option<crate::error::Fault>,
)
    requires
        crate::program::is_group_step(arith, plan, before, key, index, fields, after, outcome),
        crate::program::keys_differ(before),
    ensures
        crate::program::keys_differ(after),
        outcome is None ==> has_group(after, key),
        outcome is Some ==> after == before,
        forall|other: Seq<u8>| other != key ==> has_group(after, other) == has_group(before, other),
        after.len() == before.len() + if outcome is None && !has_group(before, key) {
            1nat
        } else {
            0nat
        },
{
    crate::program::lemma_group_index(before, key, 0);
    if outcome is None {
        match crate::program::group_index(before, key, 0) {
            Some(g) => {
                assert(before[g].0 == key);
                assert(after[g].0 == key);
                assert forall|i: int| 0 <= i < before.len() implies (#[trigger] after[i]).0
                    == before[i].0 by {
                    if i != g {
                        assert(after[i] == before[i]);
                    }
                }
                assert forall|other: Seq<u8>| other != key implies has_group(after, other)
                    == has_group(before, other) by {
                    if has_group(after, other) {
                        let w = choose|w: int| 0 <= w < after.len() && (#[trigger] after[w]).0 == other;
                        assert(before[w].0 == other);
                    }
                    if has_group(before, other) {
                        let w = choose|w: int|
                            0 <= w < before.len() && (#[trigger] before[w]).0 == other;
                        assert(after[w].0 == other);
                    }
                }
                assert forall|i: int, j: int| 0 <= i < j < after.len() implies (
                #[trigger] after[i]).0 != (#[trigger] after[j]).0 by {
                    assert(before[i].0 != before[j].0);
                }
            },
            None => {
                let last = after.len() - 1;
                assert(after[last].0 == key);
                assert forall|i: int| 0 <= i < before.len() implies (#[trigger] after[i]).0
                    == before[i].0 by {
                    assert(after[i] == before[i]);
                }
                assert(!has_group(before, key)) by {
                    if has_group(before, key) {
                        let w = choose|w: int| 0 <= w < before.len() && (#[trigger] before[w]).0 == key;
                        assert(before[w].0 != key);
                    }
                }
                assert forall|other: Seq<u8>| other != key implies has_group(after, other)
                    == has_group(before, other) by {
                    if has_group(after, other) {
                        let w = choose|w: int| 0 <= w < after.len() && (#[trigger] after[w]).0 == other;
                        assert(w < before.len());
                        assert(before[w].0 == other);
                    }
                    if has_group(before, other) {
                        let w = choose|w: int|
                            0 <= w < before.len() && (#[trigger] before[w]).0 == other;
                        assert(after[w].0 == other);
                    }
                }
                assert forall|i: int, j: int| 0 <= i < j < after.len() implies (
                #[trigger] after[i]).0 != (#[trigger] after[j]).0 by {
                    if j < before.len() {
                        assert(before[i].0 != before[j].0);
                    } else {
                        assert(before[i].0 != key);
                    }
                }
            },
        }
    }
}

} // verus!
