//! The streaming programs: one that aggregates all records together, and
//! one that aggregates them by group.

use vstd::prelude::*;
use vstd::string::StringSliceAdditionalSpecFns;
use csv::ByteRecord;
use crate::atoms::{count_limit, count_limit_value};
use crate::composite::{
    atoms_count_at_most,
    is_feeding,
    is_reading,
    needs_number,
    same_kinds,
    Atom,
    AtomKind,
    CompositeAggregator,
    Read,
    Reading,
};
use crate::error::CallError;
use crate::error::{ConcretizationError, EvaluationError, Fault, SpecifiedCallError};
use crate::interpreter::{eval_expr, is_evaluation, is_failure, values_of, Rejection};
use crate::number::FloatArith;
use crate::parser::{aggregations_of, write_bytes};
use crate::planner::{
    all_valid,
    fixed_requests,
    is_planning,
    is_result,
    kinds_of,
    plan_answers,
    plan_of,
    prepare,
    requests_of,
    requests_view,
    states_count_at_most,
    states_fresh,
    states_match,
    states_of,
    ConcreteAggregationPlanner,
    Plan,
    Request,
    UnitPlan,
};
use crate::record::{record_fields, record_new, record_push};
use crate::text::copy_bytes;
use crate::value::{is_text_of, optional_view, Value};

verus! {

/// The name under which the atoms of a unit report an error.
pub open spec fn unit_label(expr_key: Seq<u8>) -> Seq<u8> {
    "<agg-expr: ".spec_bytes() + expr_key + ">".spec_bytes()
}

/// Whether `value` can be what a unit hands to its atoms for a record with
/// the given fields: nothing where the unit has no expression, else a value
/// of its expression.
pub open spec fn is_unit_value<A: FloatArith>(
    arith: &A,
    unit: UnitPlan,
    fields: Seq<Seq<u8>>,
    value: Option<Value>,
) -> bool {
    match unit.expr {
        None => value is None,
        Some(e) => value matches Some(v) && is_evaluation(arith, e, fields, Ok(v)),
    }
}

/// Whether `fault` can come of evaluating the expression of a unit.
pub open spec fn is_unit_failure<A: FloatArith>(
    arith: &A,
    unit: UnitPlan,
    fields: Seq<Seq<u8>>,
    fault: Fault,
) -> bool {
    unit.expr matches Some(e) && is_failure(arith, e, fields, fault)
}

/// The atoms of a unit as they start: of its kinds, having seen nothing.
pub open spec fn unit_atoms(unit: UnitPlan) -> Seq<Atom> {
    Seq::new(unit.kinds.len(), |a: int| Atom::fresh(unit.kinds[a]))
}

/// Whether reading a record with the given fields for a unit can come to
/// `outcome`. The expression of the unit is evaluated once, and its value
/// is read as the atoms of the unit need it. An error of the evaluation is
/// the outcome as it is; an error of the reading bears the label of the
/// unit.
pub open spec fn is_unit_reading<A: FloatArith>(arith: &A, unit: UnitPlan, fields: Seq<Seq<u8>>, outcome: Result<Read, Fault>) -> bool {
    match outcome {
        Ok(read) => is_unit_value(arith, unit, fields, read.value) && is_reading(arith, unit_atoms(unit),
            read.value,
            Ok(read),
        ),
        Err(fault) => {
            ||| is_unit_failure(arith, unit, fields, fault)
            ||| fault.function_name == unit_label(unit.expr_key) && exists|value: Option<Value>|
                #[trigger] is_unit_value(arith, unit, fields, value) && is_reading(arith, unit_atoms(unit),
                    value,
                    Err(fault.reason),
                )
        },
    }
}

/// Whether a record with the given fields can be read for a unit.
pub open spec fn unit_reads<A: FloatArith>(arith: &A, unit: UnitPlan, fields: Seq<Seq<u8>>) -> bool {
    exists|read: Read| #[trigger] is_unit_reading(arith, unit, fields, Ok(read))
}

/// Whether reading a record for the units of a plan fails with `fault`:
/// the fault is that of the first unit for which the record cannot be
/// read.
pub open spec fn is_record_failure<A: FloatArith>(
    arith: &A,
    plan: Plan,
    fields: Seq<Seq<u8>>,
    fault: Fault,
) -> bool {
    exists|k: int|
        {
            &&& 0 <= k < plan.execution.len()
            &&& is_unit_reading(arith, #[trigger] plan.execution[k], fields, Err(fault))
            &&& forall|j: int| 0 <= j < k ==> unit_reads(arith, #[trigger] plan.execution[j], fields)
        }
}

/// Whether the atoms of a unit, in states `before`, can end in states
/// `after` when the unit is run on row `index` of the given fields.
pub open spec fn is_unit_step<A: FloatArith>(arith: &A, unit: UnitPlan,
    before: Seq<Atom>,
    index: usize,
    fields: Seq<Seq<u8>>,
    after: Seq<Atom>,
) -> bool {
    exists|read: Read| #[trigger]
        is_unit_reading(arith, unit, fields, Ok(read)) && is_feeding(arith, before, index, read, after)
}

/// Whether the states of a plan's units can move from `before` to `after`
/// with `outcome` when the plan is run on row `index`. First the record is
/// read for every unit, in turn; then the atoms are handed what was read.
/// Where the reading fails for a unit no atom sees the row: all states are
/// as they were, and the error of that unit is the outcome.
pub open spec fn is_run_step<A: FloatArith>(arith: &A, plan: Plan,
    before: Seq<Seq<Atom>>,
    index: usize,
    fields: Seq<Seq<u8>>,
    after: Seq<Seq<Atom>>,
    outcome: Option<Fault>,
) -> bool {
    match outcome {
        None => {
            &&& after.len() == before.len()
            &&& forall|i: int|
                0 <= i < before.len() ==> is_unit_step(arith, plan.execution[i],
                    #[trigger] before[i],
                    index,
                    fields,
                    after[i],
                )
        },
        Some(fault) => {
            &&& after == before
            &&& is_record_failure(arith, plan, fields, fault)
        },
    }
}

/// What an optional evaluation error holds.
pub open spec fn outcome_of(r: Result<(), EvaluationError>) -> Option<Fault> {
    match r {
        Ok(_) => None,
        Err(e) => Some(e@),
    }
}

/// Whatever bounds the counts of the states `before`, one more bounds those
/// of `after`.
pub open spec fn states_grow_by_one(before: Seq<Seq<Atom>>, after: Seq<Seq<Atom>>) -> bool {
    forall|bound: nat|
        states_count_at_most(before, bound) ==> #[trigger] states_count_at_most(after, bound + 1)
}

/// Whatever bounds the counts of the atoms `before`, one more bounds those
/// of `after`.
pub open spec fn atoms_grow_by_one(before: Seq<Atom>, after: Seq<Atom>) -> bool {
    forall|bound: nat|
        atoms_count_at_most(before, bound) ==> #[trigger] atoms_count_at_most(after, bound + 1)
}

/// Where the atoms of every unit grew by one at most, so did all.
pub proof fn lemma_states_grow(before: Seq<Seq<Atom>>, after: Seq<Seq<Atom>>)
    requires
        before.len() == after.len(),
        forall|j: int| 0 <= j < before.len() ==> atoms_grow_by_one(before[j], #[trigger] after[j]),
    ensures
        states_grow_by_one(before, after),
{
    assert forall|bound: nat| states_count_at_most(before, bound) implies #[trigger] states_count_at_most(
        after,
        bound + 1,
    ) by {
        assert forall|j: int| 0 <= j < after.len() implies atoms_count_at_most(
            #[trigger] after[j],
            bound + 1,
        ) by {
            assert(atoms_grow_by_one(before[j], after[j]));
            assert(atoms_count_at_most(before[j], bound));
        }
    }
}

/// The label of a unit.
fn label_of(expr_key: &[u8]) -> (r: Vec<u8>)
    ensures
        r@ == unit_label(expr_key@),
{
    let mut label = copy_bytes("<agg-expr: ".as_bytes());
    write_bytes(expr_key, &mut label);
    write_bytes(">".as_bytes(), &mut label);
    label
}

/// Whether reading is the same for atoms of the same kinds.
pub proof fn lemma_reading_by_kinds<A: FloatArith>(
    arith: &A,
    a: Seq<Atom>,
    b: Seq<Atom>,
    value: Option<Value>,
    outcome: Result<Read, CallError>,
)
    requires
        same_kinds(a, b),
    ensures
        is_reading(arith, a, value, outcome) == is_reading(arith, b, value, outcome),
{
    assert(needs_number(a) == needs_number(b)) by {
        if needs_number(a) {
            let w = choose|w: int| 0 <= w < a.len() && (#[trigger] a[w]).kind().spec_takes_numbers();
            assert(b[w].kind().spec_takes_numbers());
        }
        if needs_number(b) {
            let w = choose|w: int| 0 <= w < b.len() && (#[trigger] b[w]).kind().spec_takes_numbers();
            assert(a[w].kind().spec_takes_numbers());
        }
    }
}

/// Atoms of the kinds of a unit have the kinds of the unit's atoms as they
/// start.
pub proof fn lemma_unit_kinds(unit: UnitPlan, atoms: Seq<Atom>)
    requires
        kinds_of(atoms) == unit.kinds,
    ensures
        same_kinds(atoms, unit_atoms(unit)),
{
    assert(atoms.len() == kinds_of(atoms).len());
    assert forall|i: int| 0 <= i < atoms.len() implies (#[trigger] atoms[i]).kind() == (
    #[trigger] unit_atoms(unit)[i]).kind() by {
        assert(kinds_of(atoms)[i] == atoms[i].kind());
    }
}

/// Reads a record for the units of a plan, in turn: each expression is
/// evaluated once, and its value read as the atoms of its unit need it.
/// The first error ends the reading. No atom is touched.
pub fn read_record<A: FloatArith>(
    planner: &ConcreteAggregationPlanner,
    record: &ByteRecord,
    arith: &A,
) -> (r: Result<Vec<Reading>, EvaluationError>)
    requires
        planner.wf(),
        planner@.fits(record_fields(*record).len()),
    ensures
        match r {
            Ok(readings) => readings@.len() == planner@.execution.len() && forall|i: int|
                0 <= i < readings@.len() ==> is_unit_reading(arith, planner@.execution[i],
                    record_fields(*record),
                    Ok((#[trigger] readings@[i])@),
                ),
            Err(e) => is_record_failure(arith, planner@, record_fields(*record), e@),
        },
{
    let ghost plan = planner@;
    let ghost fields = record_fields(*record);
    let count = planner.units();
    let mut readings: Vec<Reading> = Vec::new();
    let mut i: usize = 0;
    while i < count
        invariant
            i <= count,
            count == plan.execution.len(),
            plan == planner@,
            planner.wf(),
            fields == record_fields(*record),
            plan.fits(fields.len()),
            readings@.len() == i,
            forall|j: int|
                0 <= j < i ==> is_unit_reading(arith, plan.execution[j],
                    fields,
                    Ok((#[trigger] readings@[j])@),
                ),
        decreases count - i,
    {
        let unit = planner.execution_unit(i);
        let ghost model = plan.execution[i as int];
        let value = match &unit.expr {
            None => None,
            Some(expr) => match eval_expr(expr, record, arith) {
                Ok(v) => Some(v),
                Err(e) => {
                    proof {
                        assert(is_unit_failure(arith, model, fields, e@));
                        assert(is_unit_reading(arith, plan.execution[i as int], fields, Err(e@)));
                        assert forall|j: int| 0 <= j < i implies unit_reads(
                            arith,
                            #[trigger] plan.execution[j],
                            fields,
                        ) by {
                            assert(is_unit_reading(arith, plan.execution[j], fields, Ok(readings@[j]@)));
                        }
                    }
                    return Err(e);
                },
            },
        };
        let ghost handed = optional_view(value);
        proof {
            assert(is_unit_value(arith, model, fields, handed));
            lemma_unit_kinds(model, unit.aggregator_blueprint@);
        }
        match unit.aggregator_blueprint.read(value, arith) {
            Ok(reading) => {
                proof {
                    lemma_reading_by_kinds(
                        arith,
                        unit.aggregator_blueprint@,
                        unit_atoms(model),
                        handed,
                        Ok(reading@),
                    );
                }
                readings.push(reading);
            },
            Err(reason) => {
                let error = EvaluationError::Call(
                    SpecifiedCallError { function_name: label_of(unit.expr_key.as_slice()), reason },
                );
                proof {
                    lemma_reading_by_kinds(
                        arith,
                        unit.aggregator_blueprint@,
                        unit_atoms(model),
                        handed,
                        Err(reason),
                    );
                    assert(error@.function_name == unit_label(model.expr_key));
                    assert(is_unit_reading(arith, plan.execution[i as int], fields, Err(error@)));
                    assert forall|j: int| 0 <= j < i implies unit_reads(
                        arith,
                        #[trigger] plan.execution[j],
                        fields,
                    ) by {
                        assert(is_unit_reading(arith, plan.execution[j], fields, Ok(readings@[j]@)));
                    }
                }
                return Err(error);
            },
        }
        i += 1;
    }
    Ok(readings)
}

/// Hands the atoms of every unit what was read of row `index` for the
/// unit.
pub fn feed_readings<A: FloatArith>(
    planner: &ConcreteAggregationPlanner,
    aggregators: &mut Vec<CompositeAggregator>,
    index: usize,
    readings: &Vec<Reading>,
    record: &ByteRecord,
    arith: &A,
)
    requires
        planner.wf(),
        all_valid(old(aggregators)@),
        states_match(states_of(old(aggregators)@), planner@),
        states_count_at_most(states_of(old(aggregators)@), (count_limit() - 1) as nat),
        readings@.len() == planner@.execution.len(),
        forall|i: int|
            0 <= i < readings@.len() ==> is_unit_reading(arith, planner@.execution[i],
                record_fields(*record),
                Ok((#[trigger] readings@[i])@),
            ),
    ensures
        all_valid(final(aggregators)@),
        states_match(states_of(final(aggregators)@), planner@),
        states_grow_by_one(states_of(old(aggregators)@), states_of(final(aggregators)@)),
        is_run_step(arith, planner@,
            states_of(old(aggregators)@),
            index,
            record_fields(*record),
            states_of(final(aggregators)@),
            None,
        ),
{
    let ghost plan = planner@;
    let ghost fields = record_fields(*record);
    let ghost before = states_of(aggregators@);
    let count = aggregators.len();
    let mut i: usize = 0;
    proof {
        planner.lemma_well_formed();
        assert forall|j: int| 0 <= j < before.len() implies atoms_grow_by_one(
            before[j],
            (#[trigger] aggregators@[j])@,
        ) by {
            crate::composite::lemma_counts_same(before[j]);
        }
    }
    while i < count
        invariant
            i <= count,
            count == plan.execution.len(),
            plan == planner@,
            plan.well_formed(),
            fields == record_fields(*record),
            before == states_of(old(aggregators)@),
            before.len() == count,
            aggregators@.len() == count,
            readings@.len() == count,
            states_match(before, plan),
            states_count_at_most(before, (count_limit() - 1) as nat),
            forall|j: int|
                0 <= j < count ==> is_unit_reading(arith, plan.execution[j],
                    fields,
                    Ok((#[trigger] readings@[j])@),
                ),
            forall|j: int| 0 <= j < count ==> (#[trigger] aggregators@[j]).wf(),
            forall|j: int| 0 <= j < count ==> same_kinds((#[trigger] aggregators@[j])@, before[j]),
            forall|j: int|
                0 <= j < i ==> is_unit_step(arith, plan.execution[j],
                    before[j],
                    index,
                    fields,
                    (#[trigger] aggregators@[j])@,
                ),
            forall|j: int| i <= j < count ==> (#[trigger] aggregators@[j])@ == before[j],
            forall|j: int|
                0 <= j < count ==> atoms_grow_by_one(before[j], (#[trigger] aggregators@[j])@),
        decreases count - i,
    {
        let ghost model = plan.execution[i as int];
        let ghost held = aggregators@;
        let ghost read = readings@[i as int]@;
        proof {
            assert(held[i as int]@ == before[i as int]);
            assert(kinds_of(before[i as int]) == model.kinds);
            assert(atoms_count_at_most(before[i as int], (count_limit() - 1) as nat));
            assert(is_unit_reading(arith, model, fields, Ok(read)));
            lemma_unit_kinds(model, before[i as int]);
            lemma_reading_by_kinds(arith, before[i as int], unit_atoms(model), read.value, Ok(read));
            if model.expr is None {
                assert forall|a: int| 0 <= a < before[i as int].len() implies #[trigger] before[i as int][a] is Count by {
                    assert(kinds_of(before[i as int])[a] == before[i as int][a].kind());
                    assert(model.kinds[a] == AtomKind::Count);
                }
            }
            crate::composite::lemma_reading_suits(arith, before[i as int], read.value, read);
        }
        aggregators[i].feed(index, &readings[i], arith);
        proof {
            assert(aggregators@.len() == held.len());
            assert forall|j: int| 0 <= j < held.len() && j != i implies aggregators@[j]
                == held[j] by {}
            assert(atoms_grow_by_one(before[i as int], aggregators@[i as int]@));
            assert(is_unit_step(arith, model, before[i as int], index, fields, aggregators@[i as int]@));
        }
        i += 1;
    }
    proof {
        lemma_states_settled(plan, before, states_of(aggregators@));
        lemma_states_grow(before, states_of(aggregators@));
    }
}

/// Runs the units of a plan on one record: the record is read for every
/// unit, then the atoms are handed what was read. Where the reading fails
/// no atom is touched.
pub fn run_with_record_on_aggregators<A: FloatArith>(
    planner: &ConcreteAggregationPlanner,
    aggregators: &mut Vec<CompositeAggregator>,
    index: usize,
    record: &ByteRecord,
    arith: &A,
) -> (r: Result<(), EvaluationError>)
    requires
        planner.wf(),
        all_valid(old(aggregators)@),
        states_match(states_of(old(aggregators)@), planner@),
        states_count_at_most(states_of(old(aggregators)@), (count_limit() - 1) as nat),
        planner@.fits(record_fields(*record).len()),
    ensures
        all_valid(final(aggregators)@),
        states_match(states_of(final(aggregators)@), planner@),
        states_grow_by_one(states_of(old(aggregators)@), states_of(final(aggregators)@)),
        is_run_step(arith, planner@,
            states_of(old(aggregators)@),
            index,
            record_fields(*record),
            states_of(final(aggregators)@),
            outcome_of(r),
        ),
{
    match read_record(planner, record, arith) {
        Ok(readings) => {
            feed_readings(planner, aggregators, index, &readings, record, arith);
            Ok(())
        },
        Err(e) => {
            proof {
                lemma_states_same(states_of(aggregators@));
            }
            Err(e)
        },
    }
}

/// A bound on the counts of states stays one when it is raised by one.
pub proof fn lemma_states_same(states: Seq<Seq<Atom>>)
    ensures
        states_grow_by_one(states, states),
{
    assert forall|j: int| 0 <= j < states.len() implies atoms_grow_by_one(
        states[j],
        #[trigger] states[j],
    ) by {
        crate::composite::lemma_counts_same(states[j]);
    }
    lemma_states_grow(states, states);
}

/// States that keep the kinds of states that match a plan match it too.
pub proof fn lemma_states_settled(plan: Plan, before: Seq<Seq<Atom>>, after: Seq<Seq<Atom>>)
    requires
        states_match(before, plan),
        after.len() == before.len(),
        forall|j: int| 0 <= j < before.len() ==> same_kinds(#[trigger] after[j], before[j]),
    ensures
        states_match(after, plan),
{
    assert forall|j: int| 0 <= j < after.len() implies kinds_of(#[trigger] after[j])
        == plan.execution[j].kinds by {
        assert(same_kinds(after[j], before[j]));
        assert(kinds_of(after[j]) =~= kinds_of(before[j]));
    }
}

/// Whether `fields` can be the output record of a plan whose units are in
/// the given states: one field for each output column, in their order, each
/// the text of an answer of its column.
pub open spec fn is_output_record<A: FloatArith>(arith: &A, plan: Plan, states: Seq<Seq<Atom>>, fields: Seq<Seq<u8>>) -> bool {
    &&& fields.len() == plan.output.len()
    &&& forall|i: int|
        0 <= i < fields.len() ==> #[trigger] is_output_field(arith, plan, states, i, fields[i])
}

/// Whether `field` can be the field of output column `i`: the text of an
/// answer of the column.
pub open spec fn is_output_field<A: FloatArith>(arith: &A, plan: Plan, states: Seq<Seq<Atom>>, i: int, field: Seq<u8>) -> bool {
    exists|value: Value| is_result(arith, plan, states, i, value) && #[trigger] is_text_of(arith, value, field)
}

/// Whether the states `after` are the states `before` made ready for
/// answering.
pub open spec fn states_finalized_from(after: Seq<Seq<Atom>>, before: Seq<Seq<Atom>>) -> bool {
    &&& after.len() == before.len()
    &&& forall|i: int|
        0 <= i < before.len() ==> (#[trigger] after[i]).len() == before[i].len() && forall|a: int|
            0 <= a < before[i].len() ==> (#[trigger] after[i][a]).is_finalized_from(before[i][a])
}

/// Atoms that have seen nothing count nothing.
pub proof fn lemma_fresh_counts(states: Seq<Seq<Atom>>)
    requires
        states_fresh(states),
    ensures
        states_count_at_most(states, 0),
{
    assert forall|i: int| 0 <= i < states.len() implies atoms_count_at_most(
        #[trigger] states[i],
        0,
    ) by {
        assert(crate::composite::all_fresh(states[i]));
        assert forall|a: int| 0 <= a < states[i].len() implies (
        #[trigger] states[i][a]).counts_at_most(0) by {
            assert(states[i][a] == Atom::fresh(states[i][a].kind()));
        }
    }
}

/// A bound on the counts of states stays one when it is raised.
pub proof fn lemma_counts_weaken(states: Seq<Seq<Atom>>, low: nat, high: nat)
    requires
        states_count_at_most(states, low),
        low <= high,
    ensures
        states_count_at_most(states, high),
{
    assert forall|i: int| 0 <= i < states.len() implies atoms_count_at_most(
        #[trigger] states[i],
        high,
    ) by {
        assert(atoms_count_at_most(states[i], low));
        assert forall|a: int| 0 <= a < states[i].len() implies (
        #[trigger] states[i][a]).counts_at_most(high) by {
            assert(states[i][a].counts_at_most(low));
        }
    }
}

/// An expression that reads columns below a width reads columns below
/// every greater width.
pub proof fn lemma_columns_widen(bound: crate::interpreter::Bound, low: nat, high: nat)
    requires
        bound.fits(low),
        low <= high,
    ensures
        bound.fits(high),
    decreases bound,
{
    match bound {
        crate::interpreter::Bound::Call(_, args) => {
            assert forall|i: int| 0 <= i < args.len() implies (#[trigger] args[i]).fits(
                high,
            ) by {
                lemma_columns_widen(args[i], low, high);
            }
        },
        _ => {},
    }
}

/// A plan that reads columns below a width reads columns below every
/// greater width.
pub proof fn lemma_plan_widen(plan: Plan, low: nat, high: nat)
    requires
        plan.fits(low),
        low <= high,
    ensures
        plan.fits(high),
{
    assert forall|i: int| 0 <= i < plan.execution.len() implies ((
    #[trigger] plan.execution[i]).expr matches Some(e) ==> e.fits(high)) by {
        match plan.execution[i].expr {
            Some(e) => {
                lemma_columns_widen(e, low, high);
            },
            None => {},
        }
    }
}

/// Atoms that have the kinds of atoms that have the kinds of others have
/// the kinds of those.
pub proof fn lemma_same_kinds_chain(a: Seq<Atom>, b: Seq<Atom>, c: Seq<Atom>)
    requires
        same_kinds(a, b),
        same_kinds(b, c),
    ensures
        same_kinds(a, c),
{
    assert forall|i: int| 0 <= i < a.len() implies (#[trigger] a[i]).kind() == (#[trigger] c[i]).kind() by {
        assert(a[i].kind() == b[i].kind());
    }
}

/// Readies every aggregator for answering.
fn finalize_aggregators(aggregators: &mut Vec<CompositeAggregator>)
    requires
        all_valid(old(aggregators)@),
    ensures
        all_valid(final(aggregators)@),
        final(aggregators)@.len() == old(aggregators)@.len(),
        states_finalized_from(states_of(final(aggregators)@), states_of(old(aggregators)@)),
        forall|j: int|
            0 <= j < old(aggregators)@.len() ==> same_kinds(
                (#[trigger] final(aggregators)@[j])@,
                old(aggregators)@[j]@,
            ),
{
    let ghost before = aggregators@;
    let mut i: usize = 0;
    while i < aggregators.len()
        invariant
            i <= aggregators@.len(),
            aggregators@.len() == before.len(),
            before == old(aggregators)@,
            forall|j: int| 0 <= j < before.len() ==> (#[trigger] aggregators@[j]).wf(),
            forall|j: int| 0 <= j < before.len() ==> same_kinds((#[trigger] aggregators@[j])@, before[j]@),
            forall|j: int|
                0 <= j < i ==> (#[trigger] aggregators@[j])@.len() == before[j]@.len() && forall|
                    a: int,
                |
                    0 <= a < before[j]@.len() ==> (#[trigger] aggregators@[j]@[a]).is_finalized_from(
                        before[j]@[a],
                    ),
            forall|j: int| i <= j < before.len() ==> (#[trigger] aggregators@[j]) == before[j],
        decreases aggregators@.len() - i,
    {
        let ghost held = aggregators@;
        aggregators[i].finalize();
        proof {
            assert(aggregators@.len() == held.len());
            assert forall|j: int| 0 <= j < held.len() && j != i implies aggregators@[j]
                == held[j] by {}
        }
        i += 1;
    }
    proof {
        let after = states_of(aggregators@);
        let start = states_of(before);
        assert forall|j: int| 0 <= j < start.len() implies (#[trigger] after[j]).len()
            == start[j].len() && forall|a: int|
            0 <= a < start[j].len() ==> (#[trigger] after[j][a]).is_finalized_from(
                start[j][a],
            ) by {
            assert(aggregators@[j]@.len() == before[j]@.len());
        }
    }
}

/// Makes the output record of a plan whose units are in the states of the
/// aggregators.
fn output_record<A: FloatArith>(
    planner: &ConcreteAggregationPlanner,
    aggregators: &Vec<CompositeAggregator>,
    arith: &A,
) -> (r: ByteRecord)
    requires
        planner.wf(),
        all_valid(aggregators@),
        states_match(states_of(aggregators@), planner@),
        states_count_at_most(states_of(aggregators@), count_limit()),
    ensures
        is_output_record(arith, planner@, states_of(aggregators@), record_fields(r)),
{
    let values = planner.results(aggregators, arith);
    let ghost plan = planner@;
    let ghost states = states_of(aggregators@);
    let mut record = record_new();
    let mut i: usize = 0;
    proof {
        assert forall|j: int| 0 <= j < values@.len() implies is_result(arith, plan,
            states,
            j,
            (#[trigger] values@[j])@,
        ) by {
            assert(values_of(values@)[j] == values@[j]@);
        }
    }
    while i < values.len()
        invariant
            i <= values@.len(),
            values@.len() == plan.output.len(),
            record_fields(record).len() == i,
            forall|j: int|
                0 <= j < values@.len() ==> is_result(arith, plan, states, j, (#[trigger] values@[j])@),
            forall|j: int|
                0 <= j < i ==> #[trigger] is_output_field(arith, plan, states, j, record_fields(record)[j]),
        decreases values@.len() - i,
    {
        let ghost before = record_fields(record);
        let text = values[i].serialize_as_bytes(arith);
        record_push(&mut record, text.as_slice());
        proof {
            let value = values@[i as int]@;
            assert(is_result(arith, plan, states, i as int, value));
            assert(is_text_of(arith, value, record_fields(record)[i as int]));
            assert forall|j: int| 0 <= j < i + 1 implies #[trigger] is_output_field(arith, plan,
                states,
                j,
                record_fields(record)[j],
            ) by {
                if j < i {
                    assert(record_fields(record)[j] == before[j]);
                    assert(is_output_field(arith, plan, states, j, before[j]));
                }
            }
        }
        i += 1;
    }
    record
}

/// Why a program does not run a record.
#[derive(Clone, Copy, Debug, PartialEq, Eq, Structural)]
pub enum RunRefusal {
    /// The record has fewer fields than the header has columns.
    RecordTooShort { expected: usize, got: usize },
    /// The program has run as many records as its atoms can count.
    TooManyRecords,
}

/// Why a program of the given width that has seen `seen` records does not
/// run a record of `got` fields, if it does not: a record that is too
/// short is refused as such; else a record beyond the count limit is.
pub open spec fn refusal_of(width: nat, got: nat, seen: nat) -> Option<RunRefusal> {
    if got < width {
        Some(RunRefusal::RecordTooShort { expected: width as usize, got: got as usize })
    } else if seen >= count_limit() {
        Some(RunRefusal::TooManyRecords)
    } else {
        None
    }
}

/// A program that aggregates all the records it is run on together.
pub struct AggregationProgram<A: FloatArith> {
    aggregators: Vec<CompositeAggregator>,
    planner: ConcreteAggregationPlanner,
    width: usize,
    rows: usize,
    arith: A,
}

impl<A: FloatArith> AggregationProgram<A> {
    /// The arithmetic that the program rounds with.
    pub closed spec fn arithmetic(&self) -> &A {
        &self.arith
    }

    /// The plan of the program.
    pub closed spec fn plan(&self) -> Plan {
        self.planner@
    }

    /// The states of the atoms, unit by unit.
    pub closed spec fn states(&self) -> Seq<Seq<Atom>> {
        states_of(self.aggregators@)
    }

    /// How many records the program was run on since it was made or
    /// cleared.
    pub closed spec fn spec_records_seen(&self) -> nat {
        self.rows as nat
    }

    /// How many columns the header had that the program was made for.
    pub closed spec fn spec_width(&self) -> nat {
        self.width as nat
    }

    /// The program is valid: its plan is well formed and reads only columns
    /// of its header, it holds one valid composite aggregator for each unit
    /// of the plan, with atoms of the unit's kinds, and no atom counts more
    /// than the records seen.
    pub closed spec fn wf(&self) -> bool {
        &&& self.planner.wf()
        &&& all_valid(self.aggregators@)
        &&& states_match(states_of(self.aggregators@), self.planner@)
        &&& states_count_at_most(states_of(self.aggregators@), self.rows as nat)
        &&& self.rows <= count_limit()
        &&& self.planner@.fits(self.width as nat)
    }

    /// A valid program has a well-formed plan and states that match it.
    pub proof fn lemma_valid(&self)
        requires
            self.wf(),
        ensures
            self.plan().well_formed(),
            states_match(self.states(), self.plan()),
            states_count_at_most(self.states(), self.spec_records_seen()),
            self.plan().fits(self.spec_width()),
    {
        self.planner.lemma_well_formed();
    }

    /// Makes the program of an aggregation list for records under the given
    /// header. A source that is no aggregation list is rejected, and so is
    /// a list that cannot be bound to the header.
    pub fn parse(code: &str, headers: &ByteRecord, arith: A) -> (r: Result<
        Self,
        ConcretizationError,
    >)
        ensures
            match aggregations_of(code.spec_bytes()) {
                Some(aggregations) => {
                    &&& match fixed_requests(aggregations, record_fields(*headers), 0) {
                        Some(Ok(requests)) => r matches Ok(program) && program.plan() == plan_of(
                            requests,
                        ),
                        Some(Err(rejection)) => r matches Err(error) && error@ == rejection,
                        None => true,
                    }
                    &&& is_planning(
                        &arith,
                        aggregations,
                        record_fields(*headers),
                        match r {
                            Ok(program) => Ok(program.plan()),
                            Err(error) => Err(error@),
                        },
                    )
                    &&& r matches Ok(program) ==> plan_answers(program.plan(), aggregations)
                },
                None => r matches Err(error) && error@ == Rejection::ParseError(code.spec_bytes()),
            },
            r matches Ok(program) ==> {
                &&& program.wf()
                &&& program.spec_records_seen() == 0
                &&& program.spec_width() == record_fields(*headers).len()
                &&& *program.arithmetic() == arith
                &&& states_fresh(program.states())
            },
    {
        let concrete_aggregations = match prepare(code, headers, &arith) {
            Ok(concrete) => concrete,
            Err(e) => {
                assert(requests_view(Err(e)) == Err::<Seq<Request>, Rejection>(e@));
                return Err(e);
            },
        };
        let ghost requests = requests_of(concrete_aggregations@);
        proof {
            assert(requests_view(Ok(concrete_aggregations)) == Ok::<Seq<Request>, Rejection>(
                requests,
            ));
            assert forall|i: int| 0 <= i < concrete_aggregations@.len() implies (
            #[trigger] concrete_aggregations@[i])@.well_formed() by {
                assert(requests[i] == concrete_aggregations@[i]@);
            }
            crate::laws::lemma_outputs_follow_requests(requests);
            crate::laws::lemma_plan_reads_columns(requests, record_fields(*headers).len());
            match aggregations_of(code.spec_bytes()) {
                Some(aggregations) => {
                    crate::laws::lemma_plan_answers(requests, aggregations);
                },
                None => {},
            }
        }
        let planner = ConcreteAggregationPlanner::from(concrete_aggregations);
        let aggregators = planner.instantiate_aggregators();
        let width = crate::record::record_len(headers);
        proof {
            lemma_fresh_counts(states_of(aggregators@));
        }
        Ok(Self { planner, aggregators, width, rows: 0, arith })
    }

    /// Returns every atom to the state in which it was made.
    pub fn clear(&mut self)
        requires
            old(self).wf(),
        ensures
            final(self).wf(),
            final(self).plan() == old(self).plan(),
            final(self).spec_width() == old(self).spec_width(),
            final(self).arithmetic() == old(self).arithmetic(),
            final(self).spec_records_seen() == 0,
            states_fresh(final(self).states()),
    {
        let ghost before = self.aggregators@;
        let mut i: usize = 0;
        while i < self.aggregators.len()
            invariant
                i <= self.aggregators@.len(),
                self.aggregators@.len() == before.len(),
                self.planner == old(self).planner,
                self.arith == old(self).arith,
                self.width == old(self).width,
                forall|j: int| 0 <= j < before.len() ==> (#[trigger] self.aggregators@[j]).wf(),
                forall|j: int|
                    0 <= j < before.len() ==> same_kinds(
                        (#[trigger] self.aggregators@[j])@,
                        before[j]@,
                    ),
                forall|j: int|
                    0 <= j < i ==> crate::composite::all_fresh((#[trigger] self.aggregators@[j])@),
            decreases self.aggregators@.len() - i,
        {
            let ghost held = self.aggregators@;
            self.aggregators[i].clear();
            proof {
                assert(self.aggregators@.len() == held.len());
                assert forall|j: int| 0 <= j < held.len() && j != i implies self.aggregators@[j]
                    == held[j] by {}
                lemma_same_kinds_chain(
                    self.aggregators@[i as int]@,
                    held[i as int]@,
                    before[i as int]@,
                );
            }
            i += 1;
        }
        self.rows = 0;
        proof {
            lemma_states_settled(self.planner@, states_of(before), states_of(self.aggregators@));
            lemma_fresh_counts(states_of(self.aggregators@));
        }
    }

    pub fn records_seen(&self) -> (r: usize)
        ensures
            r == self.spec_records_seen(),
    {
        self.rows
    }

    pub fn width(&self) -> (r: usize)
        ensures
            r == self.spec_width(),
    {
        self.width
    }

    /// Runs the program on one record, which must have a field for every
    /// column of the header. Each expression of the plan is evaluated once
    /// and its value fed to the atoms of its unit. A record that cannot be
    /// read is an error and counts for nothing: the program stays as it
    /// was.
    pub fn run_with_record(&mut self, index: usize, record: &ByteRecord) -> (r: Result<
        (),
        EvaluationError,
    >)
        requires
            old(self).wf(),
            old(self).spec_records_seen() < count_limit(),
            record_fields(*record).len() >= old(self).spec_width(),
        ensures
            final(self).wf(),
            final(self).plan() == old(self).plan(),
            final(self).spec_width() == old(self).spec_width(),
            final(self).arithmetic() == old(self).arithmetic(),
            final(self).spec_records_seen() == old(self).spec_records_seen() + if r is Ok {
                1nat
            } else {
                0nat
            },
            is_run_step(old(self).arithmetic(), old(self).plan(),
                old(self).states(),
                index,
                record_fields(*record),
                final(self).states(),
                outcome_of(r),
            ),
    {
        proof {
            lemma_plan_widen(self.planner@, self.width as nat, record_fields(*record).len());
            lemma_counts_weaken(
                states_of(self.aggregators@),
                self.rows as nat,
                (count_limit() - 1) as nat,
            );
        }
        let ghost before = states_of(self.aggregators@);
        let r = run_with_record_on_aggregators(
            &self.planner,
            &mut self.aggregators,
            index,
            record,
            &self.arith,
        );
        match r {
            Ok(_) => {
                proof {
                    assert(states_grow_by_one(before, states_of(self.aggregators@)));
                    assert(states_count_at_most(
                        states_of(self.aggregators@),
                        (self.rows + 1) as nat,
                    ));
                }
                self.rows += 1;
                Ok(())
            },
            Err(e) => Err(e),
        }
    }

    /// Runs the program on one record if it can be run: if the record has
    /// a field for every column of the header and the program has room for
    /// one more record. A record that is refused changes nothing.
    pub fn try_run_with_record(&mut self, index: usize, record: &ByteRecord) -> (r: Result<
        Result<(), EvaluationError>,
        RunRefusal,
    >)
        requires
            old(self).wf(),
        ensures
            final(self).wf(),
            final(self).plan() == old(self).plan(),
            final(self).spec_width() == old(self).spec_width(),
            final(self).arithmetic() == old(self).arithmetic(),
            match r {
                Ok(outcome) => {
                    &&& record_fields(*record).len() >= old(self).spec_width()
                    &&& old(self).spec_records_seen() < count_limit()
                    &&& final(self).spec_records_seen() == old(self).spec_records_seen()
                        + if outcome is Ok {
                        1nat
                    } else {
                        0nat
                    }
                    &&& is_run_step(old(self).arithmetic(), old(self).plan(),
                        old(self).states(),
                        index,
                        record_fields(*record),
                        final(self).states(),
                        outcome_of(outcome),
                    )
                },
                Err(refusal) => {
                    &&& final(self).states() == old(self).states()
                    &&& final(self).spec_records_seen() == old(self).spec_records_seen()
                    &&& refusal == refusal_of(
                        old(self).spec_width(),
                        record_fields(*record).len(),
                        old(self).spec_records_seen(),
                    )->0
                    &&& refusal_of(
                        old(self).spec_width(),
                        record_fields(*record).len(),
                        old(self).spec_records_seen(),
                    ) is Some
                },
            },
    {
        let got = crate::record::record_len(record);
        if got < self.width {
            return Err(RunRefusal::RecordTooShort { expected: self.width, got });
        }
        if self.rows >= count_limit_value() {
            return Err(RunRefusal::TooManyRecords);
        }
        Ok(self.run_with_record(index, record))
    }

    /// The names of the output columns, in the order of the aggregation
    /// list.
    pub fn headers(&self) -> (r: Vec<Vec<u8>>)
        ensures
            r@.len() == self.plan().output.len(),
            forall|i: int| 0 <= i < r@.len() ==> (#[trigger] r@[i])@ == self.plan().output[i].agg_name,
    {
        self.planner.headers()
    }

    /// Readies the atoms for answering and makes the output record: one
    /// field for each aggregation of the list, in the order of the list.
    /// Atoms that were ready already stay as they were.
    pub fn finalize(&mut self) -> (r: ByteRecord)
        requires
            old(self).wf(),
        ensures
            final(self).wf(),
            final(self).plan() == old(self).plan(),
            final(self).spec_width() == old(self).spec_width(),
            final(self).arithmetic() == old(self).arithmetic(),
            final(self).spec_records_seen() == old(self).spec_records_seen(),
            states_finalized_from(final(self).states(), old(self).states()),
            is_output_record(old(self).arithmetic(), final(self).plan(), final(self).states(), record_fields(r)),
    {
        let ghost before = states_of(self.aggregators@);
        finalize_aggregators(&mut self.aggregators);
        proof {
            let after = states_of(self.aggregators@);
            lemma_states_settled(self.planner@, before, after);
            crate::laws::lemma_finalize_keeps_counts(before, after, self.rows as nat);
            lemma_counts_weaken(after, self.rows as nat, count_limit());
        }
        output_record(&self.planner, &self.aggregators, &self.arith)
    }
}

/// The states in which the units of a plan start: for each unit, atoms of
/// its kinds that have seen nothing.
pub open spec fn fresh_states(plan: Plan) -> Seq<Seq<Atom>> {
    Seq::new(
        plan.execution.len(),
        |i: int|
            Seq::new(
                plan.execution[i].kinds.len(),
                |a: int| Atom::fresh(plan.execution[i].kinds[a]),
            ),
    )
}

/// States that match a plan and have seen nothing are the states in which
/// the plan's units start.
pub proof fn lemma_fresh_states(plan: Plan, states: Seq<Seq<Atom>>)
    requires
        states_match(states, plan),
        states_fresh(states),
    ensures
        states == fresh_states(plan),
{
    assert forall|i: int| 0 <= i < states.len() implies #[trigger] states[i] == fresh_states(
        plan,
    )[i] by {
        assert(kinds_of(states[i]) == plan.execution[i].kinds);
        assert(crate::composite::all_fresh(states[i]));
        assert(states[i].len() == kinds_of(states[i]).len());
        assert forall|a: int| 0 <= a < states[i].len() implies #[trigger] states[i][a]
            == fresh_states(plan)[i][a] by {
            assert(kinds_of(states[i])[a] == states[i][a].kind());
            assert(states[i][a] == Atom::fresh(states[i][a].kind()));
        }
        assert(states[i] =~= fresh_states(plan)[i]);
    }
    assert(states =~= fresh_states(plan));
}

/// A group: its key and the states of the atoms that aggregate its records.
pub type Group = (Seq<u8>, Seq<Seq<Atom>>);

/// The place of the group with the given key, from `from` on.
pub open spec fn group_index(groups: Seq<Group>, key: Seq<u8>, from: int) -> Option<int>
    decreases groups.len() - from,
{
    if from < 0 || from >= groups.len() {
        None
    } else if groups[from].0 == key {
        Some(from)
    } else {
        group_index(groups, key, from + 1)
    }
}

/// What `group_index` finds has the key, and no earlier group from `from`
/// on has it.
pub proof fn lemma_group_index(groups: Seq<Group>, key: Seq<u8>, from: int)
    requires
        0 <= from,
    ensures
        match group_index(groups, key, from) {
            Some(at) => from <= at < groups.len() && groups[at].0 == key && forall|j: int|
                from <= j < at ==> (#[trigger] groups[j]).0 != key,
            None => forall|j: int| from <= j < groups.len() ==> (#[trigger] groups[j]).0 != key,
        },
    decreases groups.len() - from,
{
    if from < groups.len() && groups[from].0 != key {
        lemma_group_index(groups, key, from + 1);
    }
}

/// The states from which a record of the group `key` is run: those of the
/// group, or those in which the plan starts if the group is new.
pub open spec fn group_start(plan: Plan, groups: Seq<Group>, key: Seq<u8>) -> Seq<Seq<Atom>> {
    match group_index(groups, key, 0) {
        Some(g) => groups[g].1,
        None => fresh_states(plan),
    }
}

/// Whether groups can move from `before` to `after` with `outcome` when a
/// record of the group `key` is run. The record's group is run as a
/// single-group program would be, from the states in which the plan starts
/// if it is the first record of its group; every other group stays as it
/// was. A new group comes last. A record that cannot be read changes
/// nothing, and makes no group.
pub open spec fn is_group_step<A: FloatArith>(arith: &A, plan: Plan,
    before: Seq<Group>,
    key: Seq<u8>,
    index: usize,
    fields: Seq<Seq<u8>>,
    after: Seq<Group>,
    outcome: Option<Fault>,
) -> bool {
    match outcome {
        Some(fault) => {
            &&& after == before
            &&& is_run_step(arith, plan,
                group_start(plan, before, key),
                index,
                fields,
                group_start(plan, before, key),
                Some(fault),
            )
        },
        None => match group_index(before, key, 0) {
            Some(g) => {
                &&& after.len() == before.len()
                &&& after[g].0 == key
                &&& is_run_step(arith, plan, before[g].1, index, fields, after[g].1, None)
                &&& forall|j: int|
                    0 <= j < before.len() && j != g ==> #[trigger] after[j] == before[j]
            },
            None => {
                &&& after.len() == before.len() + 1
                &&& after.last().0 == key
                &&& is_run_step(arith, plan, fresh_states(plan), index, fields, after.last().1, None)
                &&& forall|j: int| 0 <= j < before.len() ==> #[trigger] after[j] == before[j]
            },
        },
    }
}

/// Whether `record` can be the output of a group in the given states: the
/// output record of the states made ready for answering.
pub open spec fn is_group_output<A: FloatArith>(arith: &A, plan: Plan, states: Seq<Seq<Atom>>, fields: Seq<Seq<u8>>) -> bool {
    exists|ready: Seq<Seq<Atom>>| #[trigger]
        states_finalized_from(ready, states) && is_output_record(arith, plan, ready, fields)
}

/// No two groups have the same key.
pub open spec fn keys_differ(groups: Seq<Group>) -> bool {
    forall|i: int, j: int|
        0 <= i < j < groups.len() ==> (#[trigger] groups[i]).0 != (#[trigger] groups[j]).0
}

/// A program that aggregates the records it is run on group by group.
pub struct GroupAggregationProgram<A: FloatArith> {
    planner: ConcreteAggregationPlanner,
    keys: Vec<Vec<u8>>,
    groups: Vec<Vec<CompositeAggregator>>,
    width: usize,
    rows: usize,
    arith: A,
}

impl<A: FloatArith> GroupAggregationProgram<A> {
    /// The arithmetic that the program rounds with.
    pub closed spec fn arithmetic(&self) -> &A {
        &self.arith
    }

    /// The plan of the program.
    pub closed spec fn plan(&self) -> Plan {
        self.planner@
    }

    /// The groups seen so far, in the order in which they were first seen.
    pub closed spec fn groups(&self) -> Seq<Group> {
        Seq::new(self.keys@.len(), |i: int| (self.keys@[i]@, states_of(self.groups@[i]@)))
    }

    /// How many records the program was run on.
    pub closed spec fn spec_records_seen(&self) -> nat {
        self.rows as nat
    }

    /// How many columns the header had that the program was made for.
    pub closed spec fn spec_width(&self) -> nat {
        self.width as nat
    }

    /// The program is valid: its plan is well formed and reads only columns
    /// of its header, no two groups have the same key, and every group
    /// holds one valid composite aggregator for each unit of the plan, with
    /// atoms of the unit's kinds, none of which counts more than the
    /// records seen.
    pub closed spec fn wf(&self) -> bool {
        &&& self.planner.wf()
        &&& self.keys@.len() == self.groups@.len()
        &&& forall|i: int, j: int|
            0 <= i < j < self.keys@.len() ==> (#[trigger] self.keys@[i])@ != (
            #[trigger] self.keys@[j])@
        &&& forall|i: int|
            0 <= i < self.groups@.len() ==> {
                &&& all_valid((#[trigger] self.groups@[i])@)
                &&& states_match(states_of(self.groups@[i]@), self.planner@)
                &&& states_count_at_most(states_of(self.groups@[i]@), self.rows as nat)
            }
        &&& self.rows <= count_limit()
        &&& self.planner@.fits(self.width as nat)
    }

    /// In a valid program no two groups have the same key, and the states
    /// of every group match the plan and count no more than the records
    /// seen.
    pub proof fn lemma_valid(&self)
        requires
            self.wf(),
        ensures
            keys_differ(self.groups()),
            self.plan().well_formed(),
            self.plan().fits(self.spec_width()),
            forall|i: int|
                0 <= i < self.groups().len() ==> states_match(
                    (#[trigger] self.groups()[i]).1,
                    self.plan(),
                ) && states_count_at_most(self.groups()[i].1, self.spec_records_seen()),
    {
        self.planner.lemma_well_formed();
        assert forall|i: int, j: int| 0 <= i < j < self.groups().len() implies (
        #[trigger] self.groups()[i]).0 != (#[trigger] self.groups()[j]).0 by {
            assert(self.keys@[i]@ != self.keys@[j]@);
        }
    }

    /// Makes the program of an aggregation list for records under the given
    /// header. A source that is no aggregation list is rejected, and so is
    /// a list that cannot be bound to the header.
    pub fn parse(code: &str, headers: &ByteRecord, arith: A) -> (r: Result<
        Self,
        ConcretizationError,
    >)
        ensures
            match aggregations_of(code.spec_bytes()) {
                Some(aggregations) => {
                    &&& match fixed_requests(aggregations, record_fields(*headers), 0) {
                        Some(Ok(requests)) => r matches Ok(program) && program.plan() == plan_of(
                            requests,
                        ),
                        Some(Err(rejection)) => r matches Err(error) && error@ == rejection,
                        None => true,
                    }
                    &&& is_planning(
                        &arith,
                        aggregations,
                        record_fields(*headers),
                        match r {
                            Ok(program) => Ok(program.plan()),
                            Err(error) => Err(error@),
                        },
                    )
                    &&& r matches Ok(program) ==> plan_answers(program.plan(), aggregations)
                },
                None => r matches Err(error) && error@ == Rejection::ParseError(code.spec_bytes()),
            },
            r matches Ok(program) ==> {
                &&& program.wf()
                &&& program.spec_records_seen() == 0
                &&& program.spec_width() == record_fields(*headers).len()
                &&& *program.arithmetic() == arith
                &&& program.groups() == Seq::<Group>::empty()
            },
    {
        let concrete_aggregations = match prepare(code, headers, &arith) {
            Ok(concrete) => concrete,
            Err(e) => {
                assert(requests_view(Err(e)) == Err::<Seq<Request>, Rejection>(e@));
                return Err(e);
            },
        };
        let ghost requests = requests_of(concrete_aggregations@);
        proof {
            assert(requests_view(Ok(concrete_aggregations)) == Ok::<Seq<Request>, Rejection>(
                requests,
            ));
            assert forall|i: int| 0 <= i < concrete_aggregations@.len() implies (
            #[trigger] concrete_aggregations@[i])@.well_formed() by {
                assert(requests[i] == concrete_aggregations@[i]@);
            }
            crate::laws::lemma_outputs_follow_requests(requests);
            crate::laws::lemma_plan_reads_columns(requests, record_fields(*headers).len());
            match aggregations_of(code.spec_bytes()) {
                Some(aggregations) => {
                    crate::laws::lemma_plan_answers(requests, aggregations);
                },
                None => {},
            }
        }
        let planner = ConcreteAggregationPlanner::from(concrete_aggregations);
        let width = crate::record::record_len(headers);
        let program = Self {
            planner,
            keys: Vec::new(),
            groups: Vec::new(),
            width,
            rows: 0,
            arith,
        };
        proof {
            assert(program.groups() =~= Seq::<Group>::empty());
        }
        Ok(program)
    }

    pub fn records_seen(&self) -> (r: usize)
        ensures
            r == self.spec_records_seen(),
    {
        self.rows
    }

    pub fn width(&self) -> (r: usize)
        ensures
            r == self.spec_width(),
    {
        self.width
    }

    /// The place of the group with the given key.
    fn find_group(&self, key: &[u8]) -> (r: Option<usize>)
        requires
            self.keys@.len() == self.groups@.len(),
        ensures
            match r {
                Some(g) => group_index(self.groups(), key@, 0) == Some(g as int) && g
                    < self.keys@.len(),
                None => group_index(self.groups(), key@, 0) is None,
            },
    {
        let mut i: usize = 0;
        while i < self.keys.len()
            invariant
                i <= self.keys@.len(),
                group_index(self.groups(), key@, 0) == group_index(self.groups(), key@, i as int),
            decreases self.keys@.len() - i,
        {
            assert(self.groups()[i as int].0 == self.keys@[i as int]@);
            if crate::text::bytes_eq(self.keys[i].as_slice(), key) {
                return Some(i);
            }
            i += 1;
        }
        None
    }

    /// Runs the program on one record of the group `group`; the record must
    /// have a field for every column of the header. The first record of a
    /// group makes the group. A record that cannot be read is an error and
    /// counts for nothing: the program stays as it was.
    pub fn run_with_record(&mut self, group: Vec<u8>, index: usize, record: &ByteRecord) -> (r:
        Result<(), EvaluationError>)
        requires
            old(self).wf(),
            old(self).spec_records_seen() < count_limit(),
            record_fields(*record).len() >= old(self).spec_width(),
        ensures
            final(self).wf(),
            final(self).plan() == old(self).plan(),
            final(self).spec_width() == old(self).spec_width(),
            final(self).arithmetic() == old(self).arithmetic(),
            final(self).spec_records_seen() == old(self).spec_records_seen() + if r is Ok {
                1nat
            } else {
                0nat
            },
            is_group_step(old(self).arithmetic(), old(self).plan(),
                old(self).groups(),
                group@,
                index,
                record_fields(*record),
                final(self).groups(),
                outcome_of(r),
            ),
    {
        let ghost plan = self.planner@;
        let ghost before = self.groups();
        let ghost old_keys = self.keys@;
        let ghost old_groups = self.groups@;
        let ghost rows = self.rows as nat;
        proof {
            lemma_plan_widen(plan, self.width as nat, record_fields(*record).len());
            lemma_group_index(before, group@, 0);
        }
        let readings = match read_record(&self.planner, record, &self.arith) {
            Ok(readings) => readings,
            Err(e) => {
                return Err(e);
            },
        };
        let place = match self.find_group(group.as_slice()) {
            Some(g) => g,
            None => {
                let aggregators = self.planner.instantiate_aggregators();
                proof {
                    lemma_fresh_states(plan, states_of(aggregators@));
                    lemma_fresh_counts(states_of(aggregators@));
                    lemma_counts_weaken(states_of(aggregators@), 0, rows);
                    assert forall|i: int| 0 <= i < old_keys.len() implies (#[trigger] old_keys[i])@
                        != group@ by {
                        assert(before[i].0 == old_keys[i]@);
                    }
                }
                self.keys.push(group);
                self.groups.push(aggregators);
                self.keys.len() - 1
            },
        };
        let ghost held = self.groups@;
        let ghost start = states_of(held[place as int]@);
        proof {
            assert(all_valid(held[place as int]@));
            lemma_counts_weaken(start, rows, (count_limit() - 1) as nat);
        }
        feed_readings(
            &self.planner,
            &mut self.groups[place],
            index,
            &readings,
            record,
            &self.arith,
        );
        self.rows += 1;
        proof {
            assert(self.groups@.len() == held.len());
            assert forall|j: int| 0 <= j < held.len() && j != place implies self.groups@[j]
                == held[j] by {}
            let ended = states_of(self.groups@[place as int]@);
            assert(states_grow_by_one(start, ended));
            assert(states_count_at_most(ended, rows + 1));
            assert forall|i: int| 0 <= i < self.groups@.len() implies {
                &&& all_valid((#[trigger] self.groups@[i])@)
                &&& states_match(states_of(self.groups@[i]@), self.planner@)
                &&& states_count_at_most(states_of(self.groups@[i]@), rows + 1)
            } by {
                if i != place {
                    if i < old_groups.len() {
                        assert(self.groups@[i] == old_groups[i]);
                    }
                    lemma_counts_weaken(states_of(self.groups@[i]@), rows, rows + 1);
                }
            }
            let after = self.groups();
            match group_index(before, group@, 0) {
                Some(g) => {
                    assert(g == place);
                    assert(before[g].1 == start);
                    assert forall|j: int| 0 <= j < before.len() && j != g implies #[trigger] after[j]
                        == before[j] by {}
                },
                None => {
                    assert(place == before.len());
                    assert(after.last().1 == ended);
                    assert forall|j: int| 0 <= j < before.len() implies #[trigger] after[j]
                        == before[j] by {}
                },
            }
        }
        Ok(())
    }

    /// Runs the program on one record of the group `group` if it can be
    /// run: if the record has a field for every column of the header and
    /// the program has room for one more record. A record that is refused
    /// changes nothing.
    pub fn try_run_with_record(&mut self, group: Vec<u8>, index: usize, record: &ByteRecord) -> (r:
        Result<Result<(), EvaluationError>, RunRefusal>)
        requires
            old(self).wf(),
        ensures
            final(self).wf(),
            final(self).plan() == old(self).plan(),
            final(self).spec_width() == old(self).spec_width(),
            final(self).arithmetic() == old(self).arithmetic(),
            match r {
                Ok(outcome) => {
                    &&& record_fields(*record).len() >= old(self).spec_width()
                    &&& old(self).spec_records_seen() < count_limit()
                    &&& final(self).spec_records_seen() == old(self).spec_records_seen()
                        + if outcome is Ok {
                        1nat
                    } else {
                        0nat
                    }
                    &&& is_group_step(old(self).arithmetic(), old(self).plan(),
                        old(self).groups(),
                        group@,
                        index,
                        record_fields(*record),
                        final(self).groups(),
                        outcome_of(outcome),
                    )
                },
                Err(refusal) => {
                    &&& final(self).groups() == old(self).groups()
                    &&& final(self).spec_records_seen() == old(self).spec_records_seen()
                    &&& refusal == refusal_of(
                        old(self).spec_width(),
                        record_fields(*record).len(),
                        old(self).spec_records_seen(),
                    )->0
                    &&& refusal_of(
                        old(self).spec_width(),
                        record_fields(*record).len(),
                        old(self).spec_records_seen(),
                    ) is Some
                },
            },
    {
        let got = crate::record::record_len(record);
        if got < self.width {
            return Err(RunRefusal::RecordTooShort { expected: self.width, got });
        }
        if self.rows >= count_limit_value() {
            return Err(RunRefusal::TooManyRecords);
        }
        Ok(self.run_with_record(group, index, record))
    }

    /// The names of the output columns, in the order of the aggregation
    /// list.
    pub fn headers(&self) -> (r: Vec<Vec<u8>>)
        ensures
            r@.len() == self.plan().output.len(),
            forall|i: int| 0 <= i < r@.len() ==> (#[trigger] r@[i])@ == self.plan().output[i].agg_name,
    {
        self.planner.headers()
    }

    /// The key and the output record of every group, in the order in which
    /// the groups were first seen.
    pub fn into_byte_records(self) -> (r: Vec<(Vec<u8>, ByteRecord)>)
        requires
            self.wf(),
        ensures
            r@.len() == self.groups().len(),
            forall|i: int|
                0 <= i < r@.len() ==> (#[trigger] r@[i]).0@ == self.groups()[i].0 && is_group_output(self.arithmetic(), self.plan(),
                    self.groups()[i].1,
                    record_fields(r@[i].1),
                ),
            forall|i: int, j: int|
                0 <= i < j < r@.len() ==> (#[trigger] r@[i]).0@ != (#[trigger] r@[j]).0@,
            forall|i: int|
                0 <= i < r@.len() ==> record_fields((#[trigger] r@[i]).1).len()
                    == self.plan().output.len(),
    {
        proof {
            self.lemma_valid();
        }
        let ghost plan = self.planner@;
        let ghost groups = self.groups();
        let ghost rows = self.rows as nat;
        let ghost rounding = self.arith;
        let mut program = self;
        let mut records: Vec<(Vec<u8>, ByteRecord)> = Vec::new();
        let mut i: usize = 0;
        while i < program.keys.len()
            invariant
                i <= program.keys@.len(),
                records@.len() == i,
                plan == program.planner@,
                program.planner.wf(),
                rows == program.rows,
                program.arith == rounding,
                rows <= count_limit(),
                keys_differ(groups),
                groups.len() == program.keys@.len(),
                program.keys@.len() == program.groups@.len(),
                forall|j: int| 0 <= j < groups.len() ==> (#[trigger] groups[j]).0 == program.keys@[j]@,
                forall|j: int|
                    i <= j < groups.len() ==> (#[trigger] groups[j]).1 == states_of(
                        program.groups@[j]@,
                    ),
                forall|j: int|
                    i <= j < program.groups@.len() ==> {
                        &&& all_valid((#[trigger] program.groups@[j])@)
                        &&& states_match(states_of(program.groups@[j]@), plan)
                        &&& states_count_at_most(states_of(program.groups@[j]@), rows)
                    },
                forall|j: int|
                    0 <= j < i ==> (#[trigger] records@[j]).0@ == groups[j].0 && is_group_output(&program.arith, plan,
                        groups[j].1,
                        record_fields(records@[j].1),
                    ),
            decreases program.keys@.len() - i,
        {
            let ghost held = program.groups@;
            let ghost start = states_of(held[i as int]@);
            finalize_aggregators(&mut program.groups[i]);
            proof {
                assert(program.groups@.len() == held.len());
                assert forall|j: int| 0 <= j < held.len() && j != i implies program.groups@[j]
                    == held[j] by {}
                let ready = states_of(program.groups@[i as int]@);
                lemma_states_settled(plan, start, ready);
                crate::laws::lemma_finalize_keeps_counts(start, ready, rows);
                lemma_counts_weaken(ready, rows, count_limit());
            }
            let record = output_record(&program.planner, &program.groups[i], &program.arith);
            let key = copy_bytes(program.keys[i].as_slice());
            proof {
                let ready = states_of(program.groups@[i as int]@);
                assert(states_finalized_from(ready, groups[i as int].1) && is_output_record(&program.arith, plan,
                    ready,
                    record_fields(record),
                ));
            }
            records.push((key, record));
            i += 1;
        }
        proof {
            assert forall|a: int, b: int| 0 <= a < b < records@.len() implies (
            #[trigger] records@[a]).0@ != (#[trigger] records@[b]).0@ by {
                assert(groups[a].0 != groups[b].0);
            }
            assert forall|a: int| 0 <= a < records@.len() implies record_fields(
                (#[trigger] records@[a]).1,
            ).len() == plan.output.len() by {
                assert(is_group_output(&program.arith, plan, groups[a].1, record_fields(records@[a].1)));
            }
        }
        records
    }
}

} // verus!
