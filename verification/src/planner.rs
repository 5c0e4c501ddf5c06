//! From an aggregation list to a plan: which expressions to evaluate for
//! each record, which atoms to feed with each, and where each output column
//! finds its answer.

use vstd::prelude::*;
use vstd::string::StringSliceAdditionalSpecFns;
use csv::ByteRecord;
use crate::composite::{
    all_fresh,
    has_kind,
    method_named,
    Atom,
    AtomKind,
    CompositeAggregator,
    ConcreteAggregationMethod,
};
use crate::error::{Arity, ConcretizationError};
use crate::interpreter::{
    concretize_expression,
    fixed_binding,
    is_binding,
    Bound,
    ConcreteArgument,
    Rejection,
};
use crate::number::FloatArith;
use crate::parser::{
    aggregations_of, parse_aggregations, Aggregation, AggregationSyntax, Aggregations, Syntax,
};
use crate::record::record_fields;
use crate::text::{bytes_eq, copy_bytes};

verus! {

/// What is wrong with the number of arguments of an aggregation, if
/// anything: `count` takes one argument or none, every other function
/// exactly one.
pub open spec fn arity_rejection(func_name: Seq<u8>, got: nat) -> Option<Rejection> {
    if func_name == "count".spec_bytes() {
        if got <= 1 {
            None
        } else {
            Some(Rejection::InvalidArity { name: func_name, expected: Arity::Range(0, 1), got })
        }
    } else if got == 1 {
        None
    } else {
        Some(Rejection::InvalidArity { name: func_name, expected: Arity::Strict(1), got })
    }
}

/// Checks the number of arguments of an aggregation.
pub fn validate_aggregation_function_arity(aggregation: &Aggregation) -> (r: Result<
    (),
    ConcretizationError,
>)
    ensures
        match r {
            Ok(_) => arity_rejection(aggregation@.func_name, aggregation@.args.len()) is None,
            Err(error) => arity_rejection(aggregation@.func_name, aggregation@.args.len()) == Some(
                error@,
            ),
        },
{
    let arity = aggregation.args.len();
    if bytes_eq(aggregation.func_name.as_slice(), "count".as_bytes()) {
        if arity > 1 {
            Err(
                ConcretizationError::InvalidArity {
                    name: copy_bytes(aggregation.func_name.as_slice()),
                    expected: Arity::Range(0, 1),
                    got: arity,
                },
            )
        } else {
            Ok(())
        }
    } else if arity != 1 {
        Err(
            ConcretizationError::InvalidArity {
                name: copy_bytes(aggregation.func_name.as_slice()),
                expected: Arity::Strict(1),
                got: arity,
            },
        )
    } else {
        Ok(())
    }
}

/// An aggregation whose argument is bound to the columns of a header and
/// whose function is known.
#[derive(Debug)]
pub struct ConcreteAggregation {
    pub agg_name: Vec<u8>,
    pub method: ConcreteAggregationMethod,
    /// The bound argument; none for a bare count of rows.
    pub expr: Option<ConcreteArgument>,
    pub expr_key: Vec<u8>,
}

/// The aggregations of a list, bound to a header.
pub type ConcreteAggregations = Vec<ConcreteAggregation>;

/// What a [`ConcreteAggregation`] holds.
pub struct Request {
    pub agg_name: Seq<u8>,
    pub method: ConcreteAggregationMethod,
    pub expr: Option<Bound>,
    pub expr_key: Seq<u8>,
}

/// What an optional bound expression holds.
pub open spec fn optional_bound(expr: Option<ConcreteArgument>) -> Option<Bound> {
    match expr {
        Some(e) => Some(e@),
        None => None,
    }
}

impl View for ConcreteAggregation {
    type V = Request;

    open spec fn view(&self) -> Request {
        Request {
            agg_name: self.agg_name@,
            method: self.method,
            expr: optional_bound(self.expr),
            expr_key: self.expr_key@,
        }
    }
}

impl Request {
    /// Only a count can do without an argument.
    pub open spec fn well_formed(self) -> bool {
        self.expr is None ==> self.method is Count
    }

    /// Every column that the argument reads lies below `width`.
    pub open spec fn fits(self, width: nat) -> bool {
        self.expr matches Some(e) ==> e.fits(width)
    }
}

/// What a sequence of concrete aggregations holds.
pub open spec fn requests_of(aggregations: Seq<ConcreteAggregation>) -> Seq<Request> {
    Seq::new(aggregations.len(), |i: int| aggregations[i]@)
}

/// What binding one aggregation to a header comes to, where no binary64
/// numeral has to be rounded. The number of arguments is checked first,
/// then the argument is bound, then the function is looked up; the first
/// thing that is wrong is the error.
pub open spec fn fixed_request(aggregation: AggregationSyntax, headers: Seq<Seq<u8>>) -> Option<
    Result<Request, Rejection>,
> {
    match arity_rejection(aggregation.func_name, aggregation.args.len()) {
        Some(rejection) => Some(Err(rejection)),
        None => {
            let bound = if aggregation.args.len() == 0 {
                Some(Ok(None))
            } else {
                match fixed_binding(aggregation.args[0], headers) {
                    Some(Ok(e)) => Some(Ok(Some(e))),
                    Some(Err(rejection)) => Some(Err(rejection)),
                    None => None,
                }
            };
            match bound {
                Some(Ok(expr)) => match method_named(aggregation.func_name) {
                    Some(method) => Some(
                        Ok(
                            Request {
                                agg_name: aggregation.agg_name,
                                method,
                                expr,
                                expr_key: aggregation.expr_key,
                            },
                        ),
                    ),
                    None => Some(Err(Rejection::UnknownFunction(aggregation.func_name))),
                },
                Some(Err(rejection)) => Some(Err(rejection)),
                None => None,
            }
        },
    }
}

/// What binding the aggregations from `from` on comes to, in turn.
pub open spec fn fixed_requests(
    aggregations: Seq<AggregationSyntax>,
    headers: Seq<Seq<u8>>,
    from: nat,
) -> Option<Result<Seq<Request>, Rejection>>
    decreases aggregations.len() - from,
{
    if from >= aggregations.len() {
        Some(Ok(Seq::empty()))
    } else {
        match fixed_request(aggregations[from as int], headers) {
            Some(Ok(first)) => match fixed_requests(aggregations, headers, from + 1) {
                Some(Ok(rest)) => Some(Ok(seq![first] + rest)),
                Some(Err(rejection)) => Some(Err(rejection)),
                None => None,
            },
            Some(Err(rejection)) => Some(Err(rejection)),
            None => None,
        }
    }
}

/// Whether `r` is what binding one aggregation to a header comes to, for
/// every aggregation. The number of arguments is checked first, then the
/// argument is bound, with `arith` to read the numerals of binary64 values,
/// then the function is looked up; the first thing that is wrong is the
/// error.
pub open spec fn is_request<A: FloatArith>(
    arith: &A,
    aggregation: AggregationSyntax,
    headers: Seq<Seq<u8>>,
    r: Result<Request, Rejection>,
) -> bool {
    match arity_rejection(aggregation.func_name, aggregation.args.len()) {
        Some(rejection) => r == Err::<Request, Rejection>(rejection),
        None => exists|bound: Result<Option<Bound>, Rejection>| #[trigger]
            is_argument(arith, aggregation.args, headers, bound) && r == match bound {
                Err(rejection) => Err::<Request, Rejection>(rejection),
                Ok(expr) => match method_named(aggregation.func_name) {
                    Some(method) => Ok::<Request, Rejection>(
                        Request {
                            agg_name: aggregation.agg_name,
                            method,
                            expr,
                            expr_key: aggregation.expr_key,
                        },
                    ),
                    None => Err::<Request, Rejection>(
                        Rejection::UnknownFunction(aggregation.func_name),
                    ),
                },
            },
    }
}

/// Whether `r` is what the argument of an aggregation is bound to: nothing
/// where it has none, else what its first argument is bound to.
pub open spec fn is_argument<A: FloatArith>(
    arith: &A,
    args: Seq<Syntax>,
    headers: Seq<Seq<u8>>,
    r: Result<Option<Bound>, Rejection>,
) -> bool {
    if args.len() == 0 {
        r == Ok::<Option<Bound>, Rejection>(None)
    } else {
        match r {
            Ok(expr) => expr matches Some(e) && is_binding(arith, args[0], headers, Ok(e)),
            Err(rejection) => is_binding(arith, args[0], headers, Err(rejection)),
        }
    }
}

/// Whether `r` is what binding the aggregations to a header comes to, in
/// turn: the requests of all of them, or the error of the first that cannot
/// be bound.
pub open spec fn are_requests<A: FloatArith>(
    arith: &A,
    aggregations: Seq<AggregationSyntax>,
    headers: Seq<Seq<u8>>,
    r: Result<Seq<Request>, Rejection>,
) -> bool {
    exists|requests: Seq<Request>|
        #![trigger requests.len()]
        {
            &&& requests.len() <= aggregations.len()
            &&& forall|j: int|
                0 <= j < requests.len() ==> is_request(
                    arith,
                    aggregations[j],
                    headers,
                    Ok(#[trigger] requests[j]),
                )
            &&& if requests.len() == aggregations.len() {
                r == Ok::<Seq<Request>, Rejection>(requests)
            } else {
                r matches Err(rejection) && is_request(
                    arith,
                    aggregations[requests.len() as int],
                    headers,
                    Err(rejection),
                )
            }
        }
}

/// The answer of a binding of aggregations, over views.
pub open spec fn requests_view(r: Result<ConcreteAggregations, ConcretizationError>) -> Result<
    Seq<Request>,
    Rejection,
> {
    match r {
        Ok(aggregations) => Ok(requests_of(aggregations@)),
        Err(error) => Err(error@),
    }
}

/// Whether the answer `r` agrees with what is fixed of it.
pub open spec fn agrees_with_requests(
    r: Result<ConcreteAggregations, ConcretizationError>,
    fixed: Option<Result<Seq<Request>, Rejection>>,
) -> bool {
    match fixed {
        Some(Ok(requests)) => r matches Ok(aggregations) && requests_of(aggregations@) == requests,
        Some(Err(rejection)) => r matches Err(error) && error@ == rejection,
        None => true,
    }
}

/// Whether a request is what an aggregation asks for: it has the
/// aggregation's name and key, its method is the one that the function name
/// stands for, and it has an expression exactly if the aggregation has an
/// argument.
pub open spec fn answers(request: Request, aggregation: AggregationSyntax) -> bool {
    &&& request.agg_name == aggregation.agg_name
    &&& request.expr_key == aggregation.expr_key
    &&& method_named(aggregation.func_name) == Some(request.method)
    &&& (request.expr is None) == (aggregation.args.len() == 0)
}

/// Whether the requests are what the aggregations ask for, one for each,
/// in their order.
pub open spec fn answer_all(requests: Seq<Request>, aggregations: Seq<AggregationSyntax>) -> bool {
    &&& requests.len() == aggregations.len()
    &&& forall|i: int| 0 <= i < requests.len() ==> answers(#[trigger] requests[i], aggregations[i])
}

/// Binds one aggregation to a header.
fn concretize_aggregation<A: FloatArith>(
    aggregation: &Aggregation,
    headers: &ByteRecord,
    arith: &A,
) -> (r: Result<ConcreteAggregation, ConcretizationError>)
    ensures
        is_request(
            arith,
            aggregation@,
            record_fields(*headers),
            match r {
                Ok(concrete) => Ok(concrete@),
                Err(error) => Err(error@),
            },
        ),
        match fixed_request(aggregation@, record_fields(*headers)) {
            Some(Ok(request)) => r matches Ok(concrete) && concrete@ == request,
            Some(Err(rejection)) => r matches Err(error) && error@ == rejection,
            None => true,
        },
        r matches Ok(concrete) ==> {
            &&& concrete@.well_formed()
            &&& concrete@.fits(record_fields(*headers).len())
            &&& answers(concrete@, aggregation@)
        },
{
    match validate_aggregation_function_arity(aggregation) {
        Ok(_) => {},
        Err(e) => {
            return Err(e);
        },
    }
    let ghost fields = record_fields(*headers);
    let expr = if aggregation.args.len() == 0 {
        None
    } else {
        assert(aggregation@.args[0] == aggregation.args@[0]@);
        match concretize_expression(&aggregation.args[0], headers, arith) {
            Ok(e) => Some(e),
            Err(e) => {
                assert(is_argument(arith, aggregation@.args, fields, Err(e@)));
                return Err(e);
            },
        }
    };
    assert(is_argument(arith, aggregation@.args, fields, Ok(optional_bound(expr))));
    match ConcreteAggregationMethod::parse_bytes(aggregation.func_name.as_slice()) {
        Some(method) => {
            proof {
                if expr is None {
                    assert(aggregation@.func_name == "count".spec_bytes());
                    crate::composite::lemma_count_is_named();
                }
            }
            Ok(
                ConcreteAggregation {
                    agg_name: copy_bytes(aggregation.agg_name.as_slice()),
                    method,
                    expr,
                    expr_key: copy_bytes(aggregation.expr_key.as_slice()),
                },
            )
        },
        None => Err(
            ConcretizationError::UnknownFunction(copy_bytes(aggregation.func_name.as_slice())),
        ),
    }
}

/// Every request is well formed and reads only columns below `width`.
pub open spec fn requests_fit(requests: Seq<Request>, width: nat) -> bool {
    forall|i: int|
        0 <= i < requests.len() ==> (#[trigger] requests[i]).well_formed()
            && requests[i].fits(width)
}

/// Binds the aggregations of a list to a header, in turn.
pub fn concretize_aggregations<A: FloatArith>(
    aggregations: Aggregations,
    headers: &ByteRecord,
    arith: &A,
) -> (r: Result<ConcreteAggregations, ConcretizationError>)
    ensures
        are_requests(
            arith,
            crate::parser::aggregations_view(aggregations@),
            record_fields(*headers),
            requests_view(r),
        ),
        agrees_with_requests(
            r,
            fixed_requests(
                crate::parser::aggregations_view(aggregations@),
                record_fields(*headers),
                0,
            ),
        ),
        r matches Ok(concrete) ==> {
            &&& requests_fit(requests_of(concrete@), record_fields(*headers).len())
            &&& answer_all(requests_of(concrete@), crate::parser::aggregations_view(aggregations@))
        },
{
    let ghost trees = crate::parser::aggregations_view(aggregations@);
    let ghost fields = record_fields(*headers);
    let mut concrete_aggregations: Vec<ConcreteAggregation> = Vec::new();
    let mut i: usize = 0;
    proof {
        assert(requests_of(concrete_aggregations@) =~= Seq::<Request>::empty());
        match fixed_requests(trees, fields, 0) {
            Some(Ok(rest)) => {
                assert(requests_of(concrete_aggregations@) + rest =~= rest);
            },
            _ => {},
        }
    }
    while i < aggregations.len()
        invariant
            i <= aggregations.len(),
            concrete_aggregations@.len() == i,
            trees == crate::parser::aggregations_view(aggregations@),
            fields == record_fields(*headers),
            requests_fit(requests_of(concrete_aggregations@), fields.len()),
            forall|j: int|
                0 <= j < i ==> answers((#[trigger] concrete_aggregations@[j])@, trees[j]),
            forall|j: int|
                0 <= j < i ==> is_request(
                    arith,
                    trees[j],
                    fields,
                    Ok((#[trigger] concrete_aggregations@[j])@),
                ),
            match fixed_requests(trees, fields, 0) {
                Some(Ok(all)) => fixed_requests(trees, fields, i as nat) matches Some(Ok(rest))
                    && all == requests_of(concrete_aggregations@) + rest,
                Some(Err(rejection)) => fixed_requests(trees, fields, i as nat) == Some(
                    Err::<Seq<Request>, Rejection>(rejection),
                ),
                None => true,
            },
        decreases aggregations.len() - i,
    {
        let ghost before = requests_of(concrete_aggregations@);
        assert(trees[i as int] == aggregations@[i as int]@);
        match concretize_aggregation(&aggregations[i], headers, arith) {
            Ok(concrete) => {
                let ghost request = concrete@;
                concrete_aggregations.push(concrete);
                proof {
                    assert(requests_of(concrete_aggregations@) =~= before + seq![request]);
                    match fixed_requests(trees, fields, (i + 1) as nat) {
                        Some(Ok(rest)) => {
                            assert(before + (seq![request] + rest) =~= requests_of(
                                concrete_aggregations@,
                            ) + rest);
                        },
                        _ => {},
                    }
                    assert forall|j: int|
                        0 <= j < requests_of(concrete_aggregations@).len() implies (
                    #[trigger] requests_of(concrete_aggregations@)[j]).well_formed() && requests_of(
                        concrete_aggregations@,
                    )[j].fits(fields.len()) by {
                        if j < i {
                            assert(requests_of(concrete_aggregations@)[j] == before[j]);
                        }
                    }
                }
            },
            Err(e) => {
                proof {
                    let here = fixed_request(trees[i as int], fields);
                    let onward = fixed_requests(trees, fields, i as nat);
                    assert(here is None ==> onward is None);
                    assert(here matches Some(Err(rejection)) ==> onward == Some(
                        Err::<Seq<Request>, Rejection>(rejection),
                    ));
                    assert(before.len() == i);
                    assert forall|j: int| 0 <= j < before.len() implies is_request(
                        arith,
                        trees[j],
                        fields,
                        Ok(#[trigger] before[j]),
                    ) by {
                        assert(before[j] == concrete_aggregations@[j]@);
                    }
                    assert(is_request(arith, trees[i as int], fields, Err(e@)));
                }
                return Err(e);
            },
        }
        i += 1;
    }
    proof {
        match fixed_requests(trees, fields, 0) {
            Some(Ok(all)) => {
                assert(all =~= requests_of(concrete_aggregations@));
            },
            _ => {},
        }
        assert forall|j: int| 0 <= j < requests_of(concrete_aggregations@).len() implies answers(
            #[trigger] requests_of(concrete_aggregations@)[j],
            trees[j],
        ) by {
            assert(answers(concrete_aggregations@[j]@, trees[j]));
        }
        let all = requests_of(concrete_aggregations@);
        assert(all.len() == trees.len());
        assert forall|j: int| 0 <= j < all.len() implies is_request(
            arith,
            trees[j],
            fields,
            Ok(#[trigger] all[j]),
        ) by {
            assert(all[j] == concrete_aggregations@[j]@);
        }
    }
    Ok(concrete_aggregations)
}

/// Parses an aggregation list and binds it to a header. A source that is no
/// aggregation list is rejected as such, with the source.
pub fn prepare<A: FloatArith>(code: &str, headers: &ByteRecord, arith: &A) -> (r: Result<
    ConcreteAggregations,
    ConcretizationError,
>)
    ensures
        match aggregations_of(code.spec_bytes()) {
            Some(aggregations) => are_requests(
                arith,
                aggregations,
                record_fields(*headers),
                requests_view(r),
            ) && agrees_with_requests(
                r,
                fixed_requests(aggregations, record_fields(*headers), 0),
            ) && (r matches Ok(concrete) ==> answer_all(requests_of(concrete@), aggregations)),
            None => r matches Err(error) && error@ == Rejection::ParseError(code.spec_bytes()),
        },
        r matches Ok(concrete) ==> requests_fit(
            requests_of(concrete@),
            record_fields(*headers).len(),
        ),
{
    match parse_aggregations(code.as_bytes()) {
        Ok(parsed_aggregations) => concretize_aggregations(parsed_aggregations, headers, arith),
        Err(error) => Err(ConcretizationError::ParseError(error.source)),
    }
}

/// One expression of the plan and the atoms that it feeds.
#[derive(Debug)]
pub struct PlannerExecutionUnit {
    pub expr_key: Vec<u8>,
    pub expr: Option<ConcreteArgument>,
    pub aggregator_blueprint: CompositeAggregator,
}

/// Where one output column finds its answer: in which unit, at which atom,
/// and by which method.
#[derive(Debug)]
pub struct PlannerOutputUnit {
    pub expr_index: usize,
    pub aggregator_index: usize,
    pub agg_name: Vec<u8>,
    pub agg_method: ConcreteAggregationMethod,
}

/// What a [`PlannerExecutionUnit`] holds.
pub struct UnitPlan {
    pub expr_key: Seq<u8>,
    pub expr: Option<Bound>,
    pub kinds: Seq<AtomKind>,
}

/// What a [`PlannerOutputUnit`] holds.
pub struct OutputPlan {
    pub expr_index: nat,
    pub aggregator_index: nat,
    pub agg_name: Seq<u8>,
    pub agg_method: ConcreteAggregationMethod,
}

/// The plan of an aggregation list.
pub struct Plan {
    pub execution: Seq<UnitPlan>,
    pub output: Seq<OutputPlan>,
}

/// The kinds of a sequence of atoms.
pub open spec fn kinds_of(atoms: Seq<Atom>) -> Seq<AtomKind> {
    Seq::new(atoms.len(), |i: int| atoms[i].kind())
}

impl View for PlannerExecutionUnit {
    type V = UnitPlan;

    open spec fn view(&self) -> UnitPlan {
        UnitPlan {
            expr_key: self.expr_key@,
            expr: optional_bound(self.expr),
            kinds: kinds_of(self.aggregator_blueprint@),
        }
    }
}

impl View for PlannerOutputUnit {
    type V = OutputPlan;

    open spec fn view(&self) -> OutputPlan {
        OutputPlan {
            expr_index: self.expr_index as nat,
            aggregator_index: self.aggregator_index as nat,
            agg_name: self.agg_name@,
            agg_method: self.agg_method,
        }
    }
}

/// Whether a unit serves a request: it has the request's key, and like the
/// request it has an expression or has none.
pub open spec fn serves(unit: UnitPlan, request: Request) -> bool {
    unit.expr_key == request.expr_key && (unit.expr is None) == (request.expr is None)
}

/// The first unit from `from` on that serves the request.
pub open spec fn unit_for(units: Seq<UnitPlan>, request: Request, from: int) -> Option<int>
    decreases units.len() - from,
{
    if from < 0 || from >= units.len() {
        None
    } else if serves(units[from], request) {
        Some(from)
    } else {
        unit_for(units, request, from + 1)
    }
}

/// The first place from `from` on that holds the kind.
pub open spec fn kind_index(kinds: Seq<AtomKind>, kind: AtomKind, from: int) -> Option<int>
    decreases kinds.len() - from,
{
    if from < 0 || from >= kinds.len() {
        None
    } else if kinds[from] == kind {
        Some(from)
    } else {
        kind_index(kinds, kind, from + 1)
    }
}

/// The plan after one more request. Where a unit serves the request, the
/// atom of the method's kind is found in it or added to it; else a unit
/// with that one atom is added. The output then points at the atom.
pub open spec fn plan_step(plan: Plan, request: Request) -> Plan {
    let kind = request.method.spec_kind();
    match unit_for(plan.execution, request, 0) {
        Some(index) => {
            let unit = plan.execution[index];
            match kind_index(unit.kinds, kind, 0) {
                Some(handle) => Plan {
                    execution: plan.execution,
                    output: plan.output.push(
                        OutputPlan {
                            expr_index: index as nat,
                            aggregator_index: handle as nat,
                            agg_name: request.agg_name,
                            agg_method: request.method,
                        },
                    ),
                },
                None => Plan {
                    execution: plan.execution.update(
                        index,
                        UnitPlan {
                            expr_key: unit.expr_key,
                            expr: unit.expr,
                            kinds: unit.kinds.push(kind),
                        },
                    ),
                    output: plan.output.push(
                        OutputPlan {
                            expr_index: index as nat,
                            aggregator_index: unit.kinds.len(),
                            agg_name: request.agg_name,
                            agg_method: request.method,
                        },
                    ),
                },
            }
        },
        None => Plan {
            execution: plan.execution.push(
                UnitPlan { expr_key: request.expr_key, expr: request.expr, kinds: seq![kind] },
            ),
            output: plan.output.push(
                OutputPlan {
                    expr_index: plan.execution.len(),
                    aggregator_index: 0,
                    agg_name: request.agg_name,
                    agg_method: request.method,
                },
            ),
        },
    }
}

/// Whether output column `i` of the plan answers the aggregation: it bears
/// the aggregation's name and the method that the function name stands
/// for, and it points at a unit with the aggregation's key, which has an
/// expression exactly if the aggregation has an argument, and in the unit
/// at an atom of the kind of the method.
pub open spec fn output_answers(plan: Plan, i: int, aggregation: AggregationSyntax) -> bool {
    let out = plan.output[i];
    let unit = plan.execution[out.expr_index as int];
    &&& out.agg_name == aggregation.agg_name
    &&& method_named(aggregation.func_name) == Some(out.agg_method)
    &&& out.expr_index < plan.execution.len()
    &&& unit.expr_key == aggregation.expr_key
    &&& (unit.expr is None) == (aggregation.args.len() == 0)
    &&& out.aggregator_index < unit.kinds.len()
    &&& unit.kinds[out.aggregator_index as int] == out.agg_method.spec_kind()
}

/// Whether the plan answers the aggregation list: it has one output column
/// for each aggregation, in the order of the list, and each answers its
/// aggregation.
pub open spec fn plan_answers(plan: Plan, aggregations: Seq<AggregationSyntax>) -> bool {
    &&& plan.output.len() == aggregations.len()
    &&& forall|i: int|
        0 <= i < aggregations.len() ==> output_answers(plan, i, #[trigger] aggregations[i])
}

/// The plan of a list of requests: the requests are planned in turn,
/// starting from nothing.
pub open spec fn plan_of(requests: Seq<Request>) -> Plan
    decreases requests.len(),
{
    if requests.len() == 0 {
        Plan { execution: Seq::empty(), output: Seq::empty() }
    } else {
        plan_step(plan_of(requests.drop_last()), requests.last())
    }
}

/// Whether `r` is what planning the aggregations under a header comes to:
/// the plan of their requests, or the error of the first that cannot be
/// bound.
pub open spec fn is_planning<A: FloatArith>(
    arith: &A,
    aggregations: Seq<AggregationSyntax>,
    headers: Seq<Seq<u8>>,
    r: Result<Plan, Rejection>,
) -> bool {
    exists|requests: Result<Seq<Request>, Rejection>| #[trigger]
        are_requests(arith, aggregations, headers, requests) && r == match requests {
            Ok(all) => Ok::<Plan, Rejection>(plan_of(all)),
            Err(rejection) => Err::<Plan, Rejection>(rejection),
        }
}

impl Plan {
    /// Every output points at an atom that serves its method, no unit holds
    /// a kind twice, and a unit without expression holds counts only.
    pub open spec fn well_formed(self) -> bool {
        &&& forall|i: int|
            0 <= i < self.output.len() ==> {
                let out = #[trigger] self.output[i];
                &&& out.expr_index < self.execution.len()
                &&& out.aggregator_index < self.execution[out.expr_index as int].kinds.len()
                &&& self.execution[out.expr_index as int].kinds[out.aggregator_index as int]
                    == out.agg_method.spec_kind()
            }
        &&& forall|i: int, a: int, b: int|
            0 <= i < self.execution.len() && 0 <= a < b < self.execution[i].kinds.len()
                ==> #[trigger] self.execution[i].kinds[a] != #[trigger] self.execution[i].kinds[b]
        &&& forall|i: int, a: int|
            0 <= i < self.execution.len() && 0 <= a < self.execution[i].kinds.len()
                && self.execution[i].expr is None ==> #[trigger] self.execution[i].kinds[a]
                == AtomKind::Count
    }

    /// Every column that an expression of the plan reads lies below `width`.
    pub open spec fn fits(self, width: nat) -> bool {
        forall|i: int|
            0 <= i < self.execution.len() ==> ((#[trigger] self.execution[i]).expr matches Some(e)
                ==> e.fits(width))
    }
}

/// What `kind_index` finds holds the kind, and no earlier place from `from`
/// on does.
pub proof fn lemma_kind_index(kinds: Seq<AtomKind>, kind: AtomKind, from: int)
    requires
        0 <= from,
    ensures
        match kind_index(kinds, kind, from) {
            Some(at) => from <= at < kinds.len() && kinds[at] == kind && forall|j: int|
                from <= j < at ==> #[trigger] kinds[j] != kind,
            None => forall|j: int| from <= j < kinds.len() ==> #[trigger] kinds[j] != kind,
        },
    decreases kinds.len() - from,
{
    if from < kinds.len() && kinds[from] != kind {
        lemma_kind_index(kinds, kind, from + 1);
    }
}

/// What `unit_for` finds serves the request, and no earlier unit from `from`
/// on does.
pub proof fn lemma_unit_for(units: Seq<UnitPlan>, request: Request, from: int)
    requires
        0 <= from,
    ensures
        match unit_for(units, request, from) {
            Some(at) => from <= at < units.len() && serves(units[at], request) && forall|j: int|
                from <= j < at ==> !serves(#[trigger] units[j], request),
            None => forall|j: int| from <= j < units.len() ==> !serves(#[trigger] units[j], request),
        },
    decreases units.len() - from,
{
    if from < units.len() && !serves(units[from], request) {
        lemma_unit_for(units, request, from + 1);
    }
}

/// Planning one more well-formed request keeps a plan well formed.
pub proof fn lemma_plan_step_well_formed(plan: Plan, request: Request)
    requires
        plan.well_formed(),
        request.well_formed(),
    ensures
        plan_step(plan, request).well_formed(),
{
    let next = plan_step(plan, request);
    let kind = request.method.spec_kind();
    lemma_unit_for(plan.execution, request, 0);
    match unit_for(plan.execution, request, 0) {
        Some(index) => {
            let unit = plan.execution[index];
            lemma_kind_index(unit.kinds, kind, 0);
            assert(next.execution.len() == plan.execution.len());
            assert forall|i: int| 0 <= i < next.execution.len() && i != index implies
                #[trigger] next.execution[i] == plan.execution[i] by {}
            assert(next.execution[index].expr == unit.expr);
            assert(unit.expr is None ==> kind == AtomKind::Count);
            if kind_index(unit.kinds, kind, 0) is None {
                assert(next.execution[index].kinds == unit.kinds.push(kind));
                assert forall|a: int| 0 <= a < unit.kinds.len() implies
                    #[trigger] next.execution[index].kinds[a] == unit.kinds[a] by {}
            } else {
                assert(next.execution == plan.execution);
            }
        },
        None => {
            assert(next.execution.len() == plan.execution.len() + 1);
            assert forall|i: int| 0 <= i < plan.execution.len() implies
                #[trigger] next.execution[i] == plan.execution[i] by {}
            assert(next.execution[plan.execution.len() as int].kinds == seq![kind]);
            assert(next.execution[plan.execution.len() as int].expr == request.expr);
        },
    }
    assert forall|i: int| 0 <= i < next.output.len() implies {
        let out = #[trigger] next.output[i];
        &&& out.expr_index < next.execution.len()
        &&& out.aggregator_index < next.execution[out.expr_index as int].kinds.len()
        &&& next.execution[out.expr_index as int].kinds[out.aggregator_index as int]
            == out.agg_method.spec_kind()
    } by {
        if i < plan.output.len() {
            let out = plan.output[i];
            assert(next.output[i] == out);
        }
    }
    assert forall|i: int, a: int, b: int|
        0 <= i < next.execution.len() && 0 <= a < b < next.execution[i].kinds.len() implies
        #[trigger] next.execution[i].kinds[a] != #[trigger] next.execution[i].kinds[b] by {
        if i < plan.execution.len() && b < plan.execution[i].kinds.len() {
            assert(plan.execution[i].kinds[a] != plan.execution[i].kinds[b]);
        }
    }
    assert forall|i: int, a: int|
        0 <= i < next.execution.len() && 0 <= a < next.execution[i].kinds.len()
            && next.execution[i].expr is None implies #[trigger] next.execution[i].kinds[a]
        == AtomKind::Count by {
        if i < plan.execution.len() && a < plan.execution[i].kinds.len() {
            assert(plan.execution[i].kinds[a] == AtomKind::Count);
        }
    }
}

/// The plan of well-formed requests is well formed.
pub proof fn lemma_plan_well_formed(requests: Seq<Request>)
    requires
        forall|i: int| 0 <= i < requests.len() ==> (#[trigger] requests[i]).well_formed(),
    ensures
        plan_of(requests).well_formed(),
    decreases requests.len(),
{
    if requests.len() > 0 {
        let earlier = requests.drop_last();
        assert forall|i: int| 0 <= i < earlier.len() implies (#[trigger] earlier[i]).well_formed() by {
            assert(earlier[i] == requests[i]);
        }
        lemma_plan_well_formed(earlier);
        lemma_plan_step_well_formed(plan_of(earlier), requests.last());
    }
}

/// What a sequence of execution units holds.
pub open spec fn units_of(units: Seq<PlannerExecutionUnit>) -> Seq<UnitPlan> {
    Seq::new(units.len(), |i: int| units[i]@)
}

/// What a sequence of output units holds.
pub open spec fn outputs_of(outputs: Seq<PlannerOutputUnit>) -> Seq<OutputPlan> {
    Seq::new(outputs.len(), |i: int| outputs[i]@)
}

/// Every blueprint is valid and empty.
pub open spec fn blueprints_ready(units: Seq<PlannerExecutionUnit>) -> bool {
    forall|i: int|
        0 <= i < units.len() ==> (#[trigger] units[i]).aggregator_blueprint.wf() && all_fresh(
            units[i].aggregator_blueprint@,
        )
}

/// Finds the first unit that serves an aggregation.
fn find_unit(units: &Vec<PlannerExecutionUnit>, aggregation: &ConcreteAggregation) -> (r: Option<
    usize,
>)
    ensures
        match r {
            Some(index) => unit_for(units_of(units@), aggregation@, 0) == Some(index as int)
                && index < units@.len(),
            None => unit_for(units_of(units@), aggregation@, 0) is None,
        },
{
    let mut i: usize = 0;
    while i < units.len()
        invariant
            i <= units@.len(),
            unit_for(units_of(units@), aggregation@, 0) == unit_for(
                units_of(units@),
                aggregation@,
                i as int,
            ),
        decreases units@.len() - i,
    {
        let unit = &units[i];
        assert(units_of(units@)[i as int] == unit@);
        if bytes_eq(unit.expr_key.as_slice(), aggregation.expr_key.as_slice())
            && unit.expr.is_none() == aggregation.expr.is_none() {
            return Some(i);
        }
        i += 1;
    }
    None
}

/// Plans one more aggregation.
fn plan_one(
    execution_plan: &mut Vec<PlannerExecutionUnit>,
    output_plan: &mut Vec<PlannerOutputUnit>,
    aggregation: ConcreteAggregation,
)
    requires
        blueprints_ready(old(execution_plan)@),
    ensures
        blueprints_ready(final(execution_plan)@),
        (Plan { execution: units_of(final(execution_plan)@), output: outputs_of(final(output_plan)@) })
            == plan_step(
            Plan { execution: units_of(old(execution_plan)@), output: outputs_of(old(output_plan)@) },
            aggregation@,
        ),
{
    let ghost units = units_of(execution_plan@);
    let ghost outputs = outputs_of(output_plan@);
    let ghost request = aggregation@;
    let ghost kind = aggregation.method.spec_kind();
    match find_unit(execution_plan, &aggregation) {
        Some(expr_index) => {
            let ghost before = execution_plan@;
            let ghost unit = units[expr_index as int];
            let ghost atoms = before[expr_index as int].aggregator_blueprint@;
            proof {
                assert(unit == before[expr_index as int]@);
                before[expr_index as int].aggregator_blueprint.lemma_distinct_kinds();
                lemma_kind_index(unit.kinds, kind, 0);
            }
            let aggregator_index = execution_plan[expr_index].aggregator_blueprint.add_method(
                &aggregation.method,
            );
            proof {
                let after = execution_plan@;
                assert(after.len() == before.len());
                assert forall|j: int| 0 <= j < before.len() && j != expr_index implies after[j]
                    == before[j] by {}
                let grown = after[expr_index as int].aggregator_blueprint@;
                assert(after[expr_index as int].expr_key == before[expr_index as int].expr_key);
                assert(after[expr_index as int].expr == before[expr_index as int].expr);
                match kind_index(unit.kinds, kind, 0) {
                    Some(handle) => {
                        assert(atoms[handle].kind() == kind);
                        assert(has_kind(atoms, kind));
                        assert(grown == atoms);
                        assert(aggregator_index == handle) by {
                            assert(atoms[aggregator_index as int].kind() == kind);
                            assert(unit.kinds[aggregator_index as int] == kind);
                        }
                        assert(units_of(after) =~= units);
                    },
                    None => {
                        assert(!has_kind(atoms, kind)) by {
                            if has_kind(atoms, kind) {
                                let w = choose|w: int|
                                    0 <= w < atoms.len() && (#[trigger] atoms[w]).kind() == kind;
                                assert(unit.kinds[w] == kind);
                            }
                        }
                        assert(grown == atoms.push(Atom::fresh(kind)));
                        assert(kinds_of(grown) =~= unit.kinds.push(kind));
                        assert(units_of(after) =~= units.update(
                            expr_index as int,
                            UnitPlan {
                                expr_key: unit.expr_key,
                                expr: unit.expr,
                                kinds: unit.kinds.push(kind),
                            },
                        ));
                        assert forall|a: int| 0 <= a < grown.len() implies #[trigger] grown[a]
                            == Atom::fresh(grown[a].kind()) by {
                            if a < atoms.len() {
                                assert(grown[a] == atoms[a]);
                            }
                        }
                    },
                }
            }
            let ghost pushed = outputs_of(output_plan@);
            let output = PlannerOutputUnit {
                expr_index,
                aggregator_index,
                agg_name: aggregation.agg_name,
                agg_method: aggregation.method,
            };
            let ghost entry = output@;
            output_plan.push(output);
            proof {
                assert(outputs_of(output_plan@) =~= pushed.push(entry));
            }
        },
        None => {
            let expr_index = execution_plan.len();
            let mut aggregator_blueprint = CompositeAggregator::new();
            let aggregator_index = aggregator_blueprint.add_method(&aggregation.method);
            proof {
                assert(!has_kind(Seq::<Atom>::empty(), kind));
                assert(aggregator_blueprint@ =~= seq![Atom::fresh(kind)]);
                assert(kinds_of(aggregator_blueprint@) =~= seq![kind]);
            }
            let unit = PlannerExecutionUnit {
                expr_key: aggregation.expr_key,
                expr: aggregation.expr,
                aggregator_blueprint,
            };
            let ghost added = unit@;
            let ghost before = execution_plan@;
            execution_plan.push(unit);
            proof {
                assert(units_of(execution_plan@) =~= units.push(added));
                assert forall|i: int| 0 <= i < execution_plan@.len() implies (
                #[trigger] execution_plan@[i]).aggregator_blueprint.wf() && all_fresh(
                    execution_plan@[i].aggregator_blueprint@,
                ) by {
                    if i < before.len() {
                        assert(execution_plan@[i] == before[i]);
                    }
                }
            }
            let ghost pushed = outputs_of(output_plan@);
            let output = PlannerOutputUnit {
                expr_index,
                aggregator_index,
                agg_name: aggregation.agg_name,
                agg_method: aggregation.method,
            };
            let ghost entry = output@;
            output_plan.push(output);
            proof {
                assert(outputs_of(output_plan@) =~= pushed.push(entry));
            }
        },
    }
}

/// The aggregations in reverse order.
fn reversed(aggregations: ConcreteAggregations) -> (r: ConcreteAggregations)
    ensures
        r@ == aggregations@.reverse(),
{
    let mut source = aggregations;
    let mut target: Vec<ConcreteAggregation> = Vec::new();
    let ghost all = source@;
    while source.len() > 0
        invariant
            source@.len() <= all.len(),
            source@ == all.take(source@.len() as int),
            target@.len() + source@.len() == all.len(),
            forall|j: int|
                0 <= j < target@.len() ==> #[trigger] target@[j] == all[all.len() - 1 - j],
        decreases source@.len(),
    {
        let ghost shorter = source@.len() - 1;
        match source.pop() {
            Some(last) => {
                target.push(last);
                proof {
                    assert(source@ =~= all.take(shorter));
                }
            },
            None => {},
        }
    }
    proof {
        assert(target@ =~= all.reverse());
    }
    target
}

/// The plan of an aggregation list.
#[derive(Debug)]
pub struct ConcreteAggregationPlanner {
    execution_plan: Vec<PlannerExecutionUnit>,
    output_plan: Vec<PlannerOutputUnit>,
}

impl View for ConcreteAggregationPlanner {
    type V = Plan;

    closed spec fn view(&self) -> Plan {
        Plan { execution: units_of(self.execution_plan@), output: outputs_of(self.output_plan@) }
    }
}

/// The states of a sequence of composite aggregators.
pub open spec fn states_of(aggregators: Seq<CompositeAggregator>) -> Seq<Seq<Atom>> {
    Seq::new(aggregators.len(), |i: int| aggregators[i]@)
}

/// Every composite aggregator is valid.
pub open spec fn all_valid(aggregators: Seq<CompositeAggregator>) -> bool {
    forall|i: int| 0 <= i < aggregators.len() ==> (#[trigger] aggregators[i]).wf()
}

/// There is one state for each unit of the plan, with atoms of the unit's
/// kinds.
pub open spec fn states_match(states: Seq<Seq<Atom>>, plan: Plan) -> bool {
    &&& states.len() == plan.execution.len()
    &&& forall|i: int|
        0 <= i < states.len() ==> kinds_of(#[trigger] states[i]) == plan.execution[i].kinds
}

/// Every atom of every state is as it was made.
pub open spec fn states_fresh(states: Seq<Seq<Atom>>) -> bool {
    forall|i: int| 0 <= i < states.len() ==> all_fresh(#[trigger] states[i])
}

/// No atom of any state counts more than `bound`.
pub open spec fn states_count_at_most(states: Seq<Seq<Atom>>, bound: nat) -> bool {
    forall|i: int|
        0 <= i < states.len() ==> crate::composite::atoms_count_at_most(#[trigger] states[i], bound)
}

impl ConcreteAggregationPlanner {
    /// The plan is well formed and its blueprints are valid and empty.
    pub closed spec fn wf(&self) -> bool {
        &&& self@.well_formed()
        &&& blueprints_ready(self.execution_plan@)
    }

    /// A valid planner has a well-formed plan.
    pub proof fn lemma_well_formed(&self)
        requires
            self.wf(),
        ensures
            self@.well_formed(),
    {
    }

    /// Plans a list of aggregations.
    pub fn from(aggregations: ConcreteAggregations) -> (r: Self)
        requires
            forall|i: int|
                0 <= i < aggregations@.len() ==> (#[trigger] aggregations@[i])@.well_formed(),
        ensures
            r.wf(),
            r@ == plan_of(requests_of(aggregations@)),
    {
        let ghost requests = requests_of(aggregations@);
        let ghost all = aggregations@;
        let mut execution_plan: Vec<PlannerExecutionUnit> = Vec::new();
        let mut output_plan: Vec<PlannerOutputUnit> = Vec::new();
        let mut pending = reversed(aggregations);
        let ghost count = all.len();
        proof {
            assert(requests.take(0) =~= Seq::<Request>::empty());
            assert(units_of(execution_plan@) =~= Seq::<UnitPlan>::empty());
            assert(outputs_of(output_plan@) =~= Seq::<OutputPlan>::empty());
        }
        while pending.len() > 0
            invariant
                pending@.len() <= count,
                count == all.len(),
                requests == requests_of(all),
                forall|j: int|
                    0 <= j < pending@.len() ==> #[trigger] pending@[j] == all[count - 1 - j],
                blueprints_ready(execution_plan@),
                (Plan { execution: units_of(execution_plan@), output: outputs_of(output_plan@) })
                    == plan_of(requests.take(count - pending@.len())),
            decreases pending@.len(),
        {
            let ghost done = count - pending@.len();
            match pending.pop() {
                Some(aggregation) => {
                    proof {
                        assert(aggregation == all[done]);
                        assert(requests.take(done + 1).drop_last() =~= requests.take(done));
                        assert(requests.take(done + 1).last() == aggregation@);
                    }
                    plan_one(&mut execution_plan, &mut output_plan, aggregation);
                },
                None => {},
            }
        }
        proof {
            assert(requests.take(count as int) =~= requests);
            assert forall|i: int| 0 <= i < requests.len() implies (
            #[trigger] requests[i]).well_formed() by {
                assert(requests[i] == all[i]@);
            }
            lemma_plan_well_formed(requests);
        }
        Self { execution_plan, output_plan }
    }

    /// The unit at place `i` of the execution plan.
    pub fn execution_unit(&self, i: usize) -> (r: &PlannerExecutionUnit)
        requires
            i < self@.execution.len(),
        ensures
            r@ == self@.execution[i as int],
    {
        &self.execution_plan[i]
    }

    /// How many expressions the plan evaluates for each record.
    pub fn units(&self) -> (r: usize)
        ensures
            r == self@.execution.len(),
    {
        self.execution_plan.len()
    }

    /// One empty composite aggregator for each unit of the plan.
    pub fn instantiate_aggregators(&self) -> (r: Vec<CompositeAggregator>)
        requires
            self.wf(),
        ensures
            all_valid(r@),
            states_match(states_of(r@), self@),
            states_fresh(states_of(r@)),
    {
        let mut aggregators: Vec<CompositeAggregator> = Vec::new();
        let mut i: usize = 0;
        while i < self.execution_plan.len()
            invariant
                i <= self.execution_plan@.len(),
                aggregators@.len() == i,
                self.wf(),
                forall|j: int| 0 <= j < i ==> (#[trigger] aggregators@[j]).wf(),
                forall|j: int|
                    0 <= j < i ==> (#[trigger] aggregators@[j])@
                        == self.execution_plan@[j].aggregator_blueprint@,
            decreases self.execution_plan@.len() - i,
        {
            aggregators.push(self.execution_plan[i].aggregator_blueprint.duplicate());
            i += 1;
        }
        proof {
            assert forall|j: int| 0 <= j < states_of(aggregators@).len() implies kinds_of(
                #[trigger] states_of(aggregators@)[j],
            ) == self@.execution[j].kinds && all_fresh(states_of(aggregators@)[j]) by {
                assert(aggregators@[j]@ == self.execution_plan@[j].aggregator_blueprint@);
            }
        }
        aggregators
    }

    /// The names of the output columns, in the order of the aggregation
    /// list.
    pub fn headers(&self) -> (r: Vec<Vec<u8>>)
        ensures
            r@.len() == self@.output.len(),
            forall|i: int| 0 <= i < r@.len() ==> (#[trigger] r@[i])@ == self@.output[i].agg_name,
    {
        let mut names: Vec<Vec<u8>> = Vec::new();
        let mut i: usize = 0;
        while i < self.output_plan.len()
            invariant
                i <= self.output_plan@.len(),
                names@.len() == i,
                forall|j: int|
                    0 <= j < i ==> (#[trigger] names@[j])@ == self.output_plan@[j].agg_name@,
            decreases self.output_plan@.len() - i,
        {
            names.push(copy_bytes(self.output_plan[i].agg_name.as_slice()));
            i += 1;
        }
        names
    }

    /// The answers of the output columns, in the order of the aggregation
    /// list, read off aggregators that the plan's units have fed.
    pub fn results<A: FloatArith>(&self, aggregators: &Vec<CompositeAggregator>, arith: &A) -> (r:
        Vec<crate::value::DynamicValue>)
        requires
            self.wf(),
            all_valid(aggregators@),
            states_match(states_of(aggregators@), self@),
            states_count_at_most(states_of(aggregators@), crate::atoms::count_limit()),
        ensures
            is_results(arith, self@, states_of(aggregators@), crate::interpreter::values_of(r@)),
    {
        let mut values: Vec<crate::value::DynamicValue> = Vec::new();
        let ghost states = states_of(aggregators@);
        let mut i: usize = 0;
        while i < self.output_plan.len()
            invariant
                i <= self.output_plan@.len(),
                values@.len() == i,
                self.wf(),
                states == states_of(aggregators@),
                all_valid(aggregators@),
                states_match(states, self@),
                states_count_at_most(states, crate::atoms::count_limit()),
                forall|j: int|
                    0 <= j < i ==> is_result(arith, self@, states, j, (#[trigger] values@[j])@),
            decreases self.output_plan@.len() - i,
        {
            let unit = &self.output_plan[i];
            proof {
                assert(self@.output[i as int] == unit@);
                assert(states[unit.expr_index as int] == aggregators@[unit.expr_index as int]@);
                assert(kinds_of(states[unit.expr_index as int])[unit.aggregator_index as int]
                    == states[unit.expr_index as int][unit.aggregator_index as int].kind());
            }
            let value = aggregators[unit.expr_index].get_final_value(
                unit.aggregator_index,
                &unit.agg_method,
                arith,
            );
            values.push(value);
            i += 1;
        }
        proof {
            assert forall|j: int| 0 <= j < self@.output.len() implies is_result(arith, self@,
                states,
                j,
                #[trigger] crate::interpreter::values_of(values@)[j],
            ) by {
                assert(is_result(arith, self@, states, j, values@[j]@));
            }
        }
        values
    }
}

/// Whether `value` can be the answer of output column `i`: what the atom
/// that the column points at answers to the column's method.
pub open spec fn is_result<A: FloatArith>(arith: &A, plan: Plan, states: Seq<Seq<Atom>>, i: int, value: crate::value::Value) -> bool {
    let out = plan.output[i];
    crate::composite::is_final_value(arith, states[out.expr_index as int][out.aggregator_index as int],
        out.agg_method,
        value,
    )
}

/// Whether `values` can be the answers of the output columns: one for each,
/// in their order.
pub open spec fn is_results<A: FloatArith>(arith: &A, plan: Plan, states: Seq<Seq<Atom>>, values: Seq<crate::value::Value>) -> bool {
    &&& values.len() == plan.output.len()
    &&& forall|i: int| 0 <= i < values.len() ==> is_result(arith, plan, states, i, #[trigger] values[i])
}

} // verus!
