//! A streaming aggregation engine over tabular records.
//!
//! An aggregation list such as `count() as n, mean(price), max(price)` is
//! parsed, bound to the columns of a header and planned: expressions that
//! several aggregations share are evaluated once per record, and
//! aggregations that can share an accumulator do. The resulting program is
//! run on records one at a time and asked for its output record at the end.

pub mod atoms;
pub mod composite;
pub mod determined;
pub mod error;
pub mod frequencies;
pub mod group_key;
pub mod implode;
pub mod interpreter;
pub mod laws;
pub mod number;
pub mod numbers;
pub mod parser;
pub mod planner;
pub mod policy;
pub mod program;
pub mod record;
pub mod round_trip;
pub mod sorting;
pub mod text;
pub mod value;

pub use atoms::{AllAny, Count, Extent, FirstLast, LexicographicExtent, Sum, Welford};
pub use composite::{Aggregator, AtomKind, CompositeAggregator, ConcreteAggregationMethod};
pub use error::{Arity, CallError, ConcretizationError, EvaluationError, SpecifiedCallError};
pub use frequencies::Frequencies;
pub use group_key::group_key;
pub use implode::{implode, implode_rows, ImplodeArgs, ImplodeError};
pub use interpreter::{concretize_expression, eval_expr, ConcreteArgument, Function};
pub use number::{Comparison, DynamicNumber, Float, FloatArith};
pub use numbers::{MedianType, Numbers};
pub use parser::{parse_aggregations, parse_expression, Aggregation, Expr, ParseError};
pub use planner::{
    concretize_aggregations, prepare, validate_aggregation_function_arity, ConcreteAggregation,
    ConcreteAggregationPlanner, PlannerExecutionUnit, PlannerOutputUnit,
};
pub use policy::{ErrorPolicy, RowOutcome};
pub use program::{
    run_with_record_on_aggregators, AggregationProgram, GroupAggregationProgram, RunRefusal,
};
pub use value::DynamicValue;
