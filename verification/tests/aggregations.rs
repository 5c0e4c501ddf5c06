use csv::ByteRecord;
use moonblade::{
    AggregationProgram, Arity, CallError, ConcreteAggregationMethod, ConcreteAggregationPlanner,
    ConcretizationError, DynamicNumber, DynamicValue, ErrorPolicy, EvaluationError, Float,
    FloatArith, GroupAggregationProgram, MedianType, Numbers, RowOutcome, RunRefusal,
    SpecifiedCallError, Welford,
};

#[derive(Clone, Copy)]
struct Native;

fn lift(value: f64) -> Float {
    Float::from_bits(value.to_bits())
}

fn lower(value: Float) -> f64 {
    f64::from_bits(value.to_bits())
}

impl FloatArith for Native {
    fn sum(&self, a: Float, b: Float) -> Float {
        lift(lower(a) + lower(b))
    }

    fn difference(&self, a: Float, b: Float) -> Float {
        lift(lower(a) - lower(b))
    }

    fn product(&self, a: Float, b: Float) -> Float {
        lift(lower(a) * lower(b))
    }

    fn quotient(&self, a: Float, b: Float) -> Float {
        lift(lower(a) / lower(b))
    }

    fn square_root(&self, a: Float) -> Float {
        lift(lower(a).sqrt())
    }

    fn from_integer(&self, value: i64) -> Float {
        lift(value as f64)
    }

    fn parse(&self, text: &[u8]) -> Option<Float> {
        std::str::from_utf8(text).ok()?.parse::<f64>().ok().map(lift)
    }

    fn format(&self, value: Float) -> Vec<u8> {
        format!("{}", lower(value)).into_bytes()
    }
}

fn record(fields: &[&str]) -> ByteRecord {
    let mut r = ByteRecord::new();
    for field in fields {
        r.push_field(field.as_bytes());
    }
    r
}

fn fields(record: &ByteRecord) -> Vec<String> {
    record.iter().map(|f| String::from_utf8(f.to_vec()).unwrap()).collect()
}

fn names(headers: Vec<Vec<u8>>) -> Vec<String> {
    headers.into_iter().map(|h| String::from_utf8(h).unwrap()).collect()
}

fn aggregate(code: &str, headers: &[&str], rows: &[&[&str]]) -> Vec<String> {
    let mut program = AggregationProgram::parse(code, &record(headers), Native).unwrap();
    for (index, row) in rows.iter().enumerate() {
        program.run_with_record(index, &record(row)).unwrap();
    }
    fields(&program.finalize())
}

fn numbers_from(values: Vec<usize>) -> Numbers {
    let mut numbers = Numbers::new();
    for n in values {
        numbers.add(DynamicNumber::Integer(n as i64));
    }
    numbers
}

#[test]
fn test_median_types() {
    let odd = vec![1, 3, 5];
    let even = vec![1, 2, 6, 7];

    let mut no_numbers = Numbers::new();
    let mut lone_numbers = numbers_from(vec![8]);
    let mut odd_numbers = numbers_from(odd);
    let mut even_numbers = numbers_from(even);

    no_numbers.finalize();
    lone_numbers.finalize();
    odd_numbers.finalize();
    even_numbers.finalize();

    // Low
    assert_eq!(no_numbers.median(&MedianType::Low, &Native), None);

    assert_eq!(
        lone_numbers.median(&MedianType::Low, &Native),
        Some(DynamicNumber::Integer(8))
    );

    assert_eq!(
        odd_numbers.median(&MedianType::Low, &Native),
        Some(DynamicNumber::Integer(3))
    );

    assert_eq!(
        even_numbers.median(&MedianType::Low, &Native),
        Some(DynamicNumber::Integer(2))
    );

    // High
    assert_eq!(no_numbers.median(&MedianType::High, &Native), None);

    assert_eq!(
        lone_numbers.median(&MedianType::High, &Native),
        Some(DynamicNumber::Integer(8))
    );

    assert_eq!(
        odd_numbers.median(&MedianType::High, &Native),
        Some(DynamicNumber::Integer(3))
    );

    assert_eq!(
        even_numbers.median(&MedianType::High, &Native),
        Some(DynamicNumber::Integer(6))
    );

    // Interpolation
    assert_eq!(no_numbers.median(&MedianType::Interpolation, &Native), None);

    assert_eq!(
        lone_numbers.median(&MedianType::Interpolation, &Native),
        Some(DynamicNumber::Integer(8))
    );

    assert_eq!(
        odd_numbers.median(&MedianType::Interpolation, &Native),
        Some(DynamicNumber::Integer(3))
    );

    assert_eq!(
        even_numbers.median(&MedianType::Interpolation, &Native),
        Some(DynamicNumber::Float(lift(4.0)))
    );
}

#[test]
fn basic_aggregations() {
    let got = aggregate(
        "count() as c, sum(n) as s, mean(n) as m, min(n) as lo, max(n) as hi",
        &["n"],
        &[&["1"], &["2"], &["3"], &["4"], &["5"]],
    );
    assert_eq!(got, vec!["5", "15", "3", "1", "5"]);
}

#[test]
fn planner_shares_expression_and_atoms() {
    let headers = record(&["a"]);
    let concrete =
        moonblade::prepare("sum(a) as s, mean(a) as m, var_sample(a) as v", &headers, &Native)
            .unwrap();
    let planner = ConcreteAggregationPlanner::from(concrete);
    assert_eq!(planner.units(), 1);
    assert_eq!(planner.execution_unit(0).expr_key, b"a".to_vec());
    assert_eq!(planner.execution_unit(0).aggregator_blueprint.len(), 2);
    assert_eq!(names(planner.headers()), vec!["s", "m", "v"]);

    let got = aggregate(
        "sum(a) as s, mean(a) as m, var_sample(a) as v",
        &["a"],
        &[&["1"], &["2"], &["3"]],
    );
    assert_eq!(got, vec!["6", "2", "1"]);
}

#[test]
fn medians_of_an_even_count() {
    let got = aggregate(
        "median_low(n), median_high(n), median(n)",
        &["n"],
        &[&["7"], &["1"], &["6"], &["2"]],
    );
    assert_eq!(got, vec!["2", "6", "4"]);
}

#[test]
fn group_aggregation() {
    let mut program =
        GroupAggregationProgram::parse("sum(v) as s, count() as c", &record(&["k", "v"]), Native)
            .unwrap();
    let rows = [["x", "1"], ["x", "3"], ["y", "10"]];
    for (index, row) in rows.iter().enumerate() {
        program
            .run_with_record(row[0].as_bytes().to_vec(), index, &record(row))
            .unwrap();
    }
    assert_eq!(names(program.headers()), vec!["s", "c"]);
    let mut got: Vec<(String, Vec<String>)> = program
        .into_byte_records()
        .into_iter()
        .map(|(key, r)| (String::from_utf8(key).unwrap(), fields(&r)))
        .collect();
    got.sort();
    assert_eq!(
        got,
        vec![
            ("x".to_string(), vec!["4".to_string(), "2".to_string()]),
            ("y".to_string(), vec!["10".to_string(), "1".to_string()]),
        ]
    );
}

#[test]
fn first_last_and_lexicographic_extent() {
    let code = "first(w), last(w), lex_first(w), lex_last(w)";
    let got = aggregate(code, &["w"], &[&["pear"], &["apple"], &["banana"]]);
    assert_eq!(got, vec!["pear", "banana", "apple", "pear"]);

    let program = AggregationProgram::parse(code, &record(&["w"]), Native).unwrap();
    assert_eq!(
        names(program.headers()),
        vec!["first(w)", "last(w)", "lex_first(w)", "lex_last(w)"]
    );
}

#[test]
fn null_handling() {
    let got = aggregate(
        "count(x) as c_non_null, count() as c_all, sum(x) as s",
        &["x"],
        &[&["1"], &[""], &["2"], &[""]],
    );
    assert_eq!(got, vec!["2", "4", "3"]);
}

#[test]
fn output_has_one_field_per_aggregation_in_order() {
    let code = "max(a), count(), min(a), count(a), sum(b), max(a)";
    let program = AggregationProgram::parse(code, &record(&["a", "b"]), Native).unwrap();
    assert_eq!(
        names(program.headers()),
        vec!["max(a)", "count()", "min(a)", "count(a)", "sum(b)", "max(a)"]
    );
    let got = aggregate(code, &["a", "b"], &[&["3", "10"], &["1", "20"]]);
    assert_eq!(got, vec!["3", "2", "1", "2", "30", "3"]);
}

#[test]
fn duplicate_aggregation_adds_only_an_output() {
    let headers = record(&["a"]);
    let short = ConcreteAggregationPlanner::from(
        moonblade::prepare("sum(a), mean(a)", &headers, &Native).unwrap(),
    );
    let long = ConcreteAggregationPlanner::from(
        moonblade::prepare("sum(a), mean(a), sum(a) as again", &headers, &Native).unwrap(),
    );
    assert_eq!(short.units(), long.units());
    assert_eq!(
        short.execution_unit(0).aggregator_blueprint.len(),
        long.execution_unit(0).aggregator_blueprint.len()
    );
    assert_eq!(short.headers().len() + 1, long.headers().len());
}

#[test]
fn one_unit_per_expression_key() {
    let headers = record(&["a", "b"]);
    let planner = ConcreteAggregationPlanner::from(
        moonblade::prepare("sum(a), max(b), mean( a ), min(`b`), count()", &headers, &Native)
            .unwrap(),
    );
    assert_eq!(planner.units(), 3);
    assert_eq!(planner.execution_unit(0).expr_key, b"a".to_vec());
    assert_eq!(planner.execution_unit(1).expr_key, b"b".to_vec());
    assert_eq!(planner.execution_unit(2).expr_key, b"".to_vec());
}

#[test]
fn finalize_twice_gives_the_same_record() {
    let mut program =
        AggregationProgram::parse("median(n), mode(n), sum(n)", &record(&["n"]), Native).unwrap();
    for (index, value) in ["5", "3", "9", "3"].iter().enumerate() {
        program.run_with_record(index, &record(&[value])).unwrap();
    }
    let first = fields(&program.finalize());
    let second = fields(&program.finalize());
    assert_eq!(first, vec!["4", "3", "20"]);
    assert_eq!(first, second);
}

#[test]
fn clear_gives_a_fresh_program() {
    let code = "count(), sum(n), first(n), median(n), cardinality(n)";
    let rows: [&[&str]; 3] = [&["4"], &["8"], &["4"]];
    let fresh = aggregate(code, &["n"], &rows);

    let mut program = AggregationProgram::parse(code, &record(&["n"]), Native).unwrap();
    program.run_with_record(0, &record(&["100"])).unwrap();
    program.run_with_record(1, &record(&["200"])).unwrap();
    program.clear();
    assert_eq!(program.records_seen(), 0);
    for (index, row) in rows.iter().enumerate() {
        program.run_with_record(index, &record(row)).unwrap();
    }
    assert_eq!(fields(&program.finalize()), fresh);
    assert_eq!(fresh, vec!["3", "16", "4", "4", "2"]);
}

#[test]
fn unknown_function_is_rejected() {
    let r = AggregationProgram::parse("frobnicate(a)", &record(&["a"]), Native);
    assert_eq!(
        r.err(),
        Some(ConcretizationError::UnknownFunction(b"frobnicate".to_vec()))
    );
    let r = AggregationProgram::parse("sum(a), avg(a)", &record(&["a"]), Native);
    assert_eq!(
        r.err(),
        Some(ConcretizationError::UnknownFunction(b"avg".to_vec()))
    );
}

#[test]
fn wrong_arity_is_rejected() {
    let r = AggregationProgram::parse("sum(a, a)", &record(&["a"]), Native);
    assert_eq!(
        r.err(),
        Some(ConcretizationError::InvalidArity {
            name: b"sum".to_vec(),
            expected: Arity::Strict(1),
            got: 2,
        })
    );
    let r = AggregationProgram::parse("count(a, a)", &record(&["a"]), Native);
    assert_eq!(
        r.err(),
        Some(ConcretizationError::InvalidArity {
            name: b"count".to_vec(),
            expected: Arity::Range(0, 1),
            got: 2,
        })
    );
    let r = AggregationProgram::parse("sum()", &record(&["a"]), Native);
    assert_eq!(
        r.err(),
        Some(ConcretizationError::InvalidArity {
            name: b"sum".to_vec(),
            expected: Arity::Strict(1),
            got: 0,
        })
    );
}

#[test]
fn unknown_identifier_is_rejected() {
    let r = AggregationProgram::parse("sum(z)", &record(&["a"]), Native);
    assert_eq!(
        r.err(),
        Some(ConcretizationError::UnknownIdentifier(b"z".to_vec()))
    );
}

#[test]
fn broken_source_is_rejected() {
    for code in ["sum(a", "", "sum(a) as", "sum(a) mean(a)", "sum(a),"] {
        let r = AggregationProgram::parse(code, &record(&["a"]), Native);
        assert_eq!(
            r.err(),
            Some(ConcretizationError::ParseError(code.as_bytes().to_vec())),
            "{}",
            code
        );
    }
}

#[test]
fn value_that_is_no_number_stops_the_run() {
    let mut program =
        AggregationProgram::parse("count(x), sum(x)", &record(&["x"]), Native).unwrap();
    program.run_with_record(0, &record(&["2"])).unwrap();
    let r = program.run_with_record(1, &record(&["two"]));
    match r {
        Err(EvaluationError::Call(error)) => {
            assert_eq!(error.reason, CallError::CannotCoerceToNumber);
            assert_eq!(error.function_name, b"<agg-expr: x>".to_vec());
        }
        Ok(()) => panic!("expected an error"),
    }
    // No atom has seen the row, not even the count that comes before the sum.
    assert_eq!(program.records_seen(), 1);
    assert_eq!(fields(&program.finalize()), vec!["1", "2"]);
}

#[test]
fn every_method_name_is_known() {
    let cases = [
        ("all", ConcreteAggregationMethod::All),
        ("any", ConcreteAggregationMethod::Any),
        ("cardinality", ConcreteAggregationMethod::Cardinality),
        ("count", ConcreteAggregationMethod::Count),
        ("first", ConcreteAggregationMethod::First),
        ("last", ConcreteAggregationMethod::Last),
        ("lex_first", ConcreteAggregationMethod::LexFirst),
        ("lex_last", ConcreteAggregationMethod::LexLast),
        ("min", ConcreteAggregationMethod::Min),
        ("max", ConcreteAggregationMethod::Max),
        ("mean", ConcreteAggregationMethod::Mean),
        ("median", ConcreteAggregationMethod::Median(MedianType::Interpolation)),
        ("median_high", ConcreteAggregationMethod::Median(MedianType::High)),
        ("median_low", ConcreteAggregationMethod::Median(MedianType::Low)),
        ("mode", ConcreteAggregationMethod::Mode),
        ("var", ConcreteAggregationMethod::VarPop),
        ("var_pop", ConcreteAggregationMethod::VarPop),
        ("var_sample", ConcreteAggregationMethod::VarSample),
        ("stddev", ConcreteAggregationMethod::StddevPop),
        ("stddev_pop", ConcreteAggregationMethod::StddevPop),
        ("stddev_sample", ConcreteAggregationMethod::StddevSample),
        ("sum", ConcreteAggregationMethod::Sum),
    ];
    for (name, method) in cases {
        assert_eq!(ConcreteAggregationMethod::parse(name), Some(method), "{}", name);
    }
    assert_eq!(ConcreteAggregationMethod::parse("total"), None);
    assert_eq!(ConcreteAggregationMethod::parse("avg"), None);
    assert_eq!(ConcreteAggregationMethod::parse("Mean"), None);
    assert_eq!(ConcreteAggregationMethod::parse(" mean"), None);
    assert_eq!(ConcreteAggregationMethod::parse(""), None);
}

#[test]
fn truth_mode_cardinality_and_deviation() {
    let got = aggregate(
        "all(x), any(x), mode(x), cardinality(x), var(x), stddev(x), stddev_sample(x)",
        &["x"],
        &[&["2"], &["4"], &["4"], &["4"], &["5"], &["5"], &["7"], &["9"]],
    );
    assert_eq!(got, vec!["true", "true", "4", "5", "4", "2", "2.138089935299395"]);
    let got = aggregate("all(x), any(x)", &["x"], &[&["1"], &[""], &["0"]]);
    assert_eq!(got, vec!["false", "true"]);
}

#[test]
fn nothing_seen_gives_empty_answers() {
    let got = aggregate(
        "count(), sum(x), min(x), max(x), mean(x), median(x), mode(x), first(x), lex_last(x), var(x), all(x), any(x), cardinality(x)",
        &["x"],
        &[],
    );
    assert_eq!(
        got,
        vec!["0", "0", "", "", "", "", "", "", "", "", "true", "false", "0"]
    );
}

#[test]
fn sample_variance_needs_two_values() {
    let got = aggregate("var(x), var_sample(x), stddev_sample(x)", &["x"], &[&["3"]]);
    assert_eq!(got, vec!["0", "", ""]);
}

#[test]
fn sum_turns_to_a_float_and_stays_one() {
    let got = aggregate("sum(x)", &["x"], &[&["1"], &["0.5"], &["2"]]);
    assert_eq!(got, vec!["3.5"]);
}

#[test]
fn expressions_are_evaluated() {
    let got = aggregate(
        "sum(add(a, mul(b, 2))) as s, max(len(concat(a, \"xy\"))) as l, count(coalesce(c, a)) as n",
        &["a", "b", "c"],
        &[&["1", "10", ""], &["20", "3", "x"]],
    );
    assert_eq!(got, vec!["47", "4", "2"]);
}

#[test]
fn online_moments_agree_with_the_plain_formulas() {
    let values = [3.5, -1.25, 1e6, 0.0, 42.0, 7.75, -300.5, 1e-3, 12.0, 12.0];
    let mut moments = Welford::new();
    assert_eq!(moments.mean(), None);
    assert_eq!(moments.variance(&Native), None);
    for v in values {
        moments.add(lift(v), &Native);
    }
    assert_eq!(moments.count(), values.len());
    let n = values.len() as f64;
    let mean = values.iter().sum::<f64>() / n;
    let squares = values.iter().map(|v| (v - mean) * (v - mean)).sum::<f64>();
    let close = |got: Option<Float>, want: f64| {
        let got = lower(got.unwrap());
        assert!(((got - want) / want).abs() < 1e-9, "{} {}", got, want);
    };
    close(moments.mean(), mean);
    close(moments.variance(&Native), squares / n);
    close(moments.sample_variance(&Native), squares / (n - 1.0));
    close(moments.stdev(&Native), (squares / n).sqrt());
    close(moments.sample_stdev(&Native), (squares / (n - 1.0)).sqrt());
    moments.clear();
    assert_eq!(moments.count(), 0);
    assert_eq!(moments.mean(), None);
}

#[test]
fn mean_and_medians_lie_within_the_extent() {
    let rows: [&[&str]; 7] = [&["4"], &["-2.5"], &["19"], &["7"], &["7.5"], &["0"], &["3"]];
    let got = aggregate(
        "min(n), median_low(n), median(n), median_high(n), max(n), mean(n)",
        &["n"],
        &rows[..6],
    );
    let numbers: Vec<f64> = got.iter().map(|f| f.parse().unwrap()).collect();
    assert_eq!(got[..5], ["-2.5", "4", "5.5", "7", "19"]);
    assert!(numbers[0] <= numbers[1] && numbers[1] <= numbers[2]);
    assert!(numbers[2] <= numbers[3] && numbers[3] <= numbers[4]);
    assert!(numbers[0] <= numbers[5] && numbers[5] <= numbers[4]);

    let got = aggregate("median_low(n), median(n), median_high(n)", &["n"], &rows);
    assert_eq!(got, vec!["4", "4", "4"]);
}

#[test]
fn policies_decide_what_becomes_of_a_row() {
    assert_eq!(ErrorPolicy::parse("panic"), Some(ErrorPolicy::Panic));
    assert_eq!(ErrorPolicy::parse("report"), Some(ErrorPolicy::Report));
    assert_eq!(ErrorPolicy::parse("ignore"), Some(ErrorPolicy::Ignore));
    assert_eq!(ErrorPolicy::parse("log"), Some(ErrorPolicy::Log));
    assert_eq!(ErrorPolicy::parse("Panic"), None);
    assert_eq!(ErrorPolicy::parse(""), None);

    let failure = || {
        EvaluationError::Call(SpecifiedCallError {
            function_name: b"add".to_vec(),
            reason: CallError::CannotCoerceToNumber,
        })
    };
    let message = b"add: cannot coerce to number".to_vec();
    for policy in [
        ErrorPolicy::Panic,
        ErrorPolicy::Report,
        ErrorPolicy::Ignore,
        ErrorPolicy::Log,
    ] {
        assert_eq!(
            policy.handle(Ok(DynamicValue::Integer(4))),
            RowOutcome::Keep(DynamicValue::Integer(4))
        );
    }
    assert_eq!(
        ErrorPolicy::Panic.handle(Err(failure())),
        RowOutcome::Abort(failure())
    );
    assert_eq!(
        ErrorPolicy::Report.handle(Err(failure())),
        RowOutcome::Report(DynamicValue::Null, message.clone())
    );
    assert_eq!(
        ErrorPolicy::Ignore.handle(Err(failure())),
        RowOutcome::Keep(DynamicValue::Null)
    );
    assert_eq!(
        ErrorPolicy::Log.handle(Err(failure())),
        RowOutcome::Log(DynamicValue::Null, message)
    );
    assert_eq!(
        CallError::InvalidArgument(b"sign".to_vec()).message(),
        b"invalid argument: sign".to_vec()
    );
    assert_eq!(CallError::UserMessage(b"no".to_vec()).message(), b"no".to_vec());
}

#[test]
fn groups_come_in_the_order_in_which_they_were_first_seen() {
    let mut program =
        GroupAggregationProgram::parse("count(), last(v)", &record(&["k", "v"]), Native).unwrap();
    let rows = [["b", "1"], ["a", "2"], ["b", "3"], ["c", ""], ["a", "5"]];
    for (index, row) in rows.iter().enumerate() {
        program
            .run_with_record(row[0].as_bytes().to_vec(), index, &record(row))
            .unwrap();
    }
    assert_eq!(program.records_seen(), 5);
    let got: Vec<(Vec<u8>, Vec<String>)> = program
        .into_byte_records()
        .into_iter()
        .map(|(key, r)| (key, fields(&r)))
        .collect();
    assert_eq!(
        got,
        vec![
            (b"b".to_vec(), vec!["2".to_string(), "3".to_string()]),
            (b"a".to_vec(), vec!["2".to_string(), "5".to_string()]),
            (b"c".to_vec(), vec!["1".to_string(), "".to_string()]),
        ]
    );
}

#[test]
fn a_record_that_cannot_be_read_changes_nothing() {
    let mut program = AggregationProgram::parse(
        "count(), first(a), sum(b), max(c)",
        &record(&["a", "b", "c"]),
        Native,
    )
    .unwrap();
    program.run_with_record(0, &record(&["x", "1", "5"])).unwrap();
    assert!(program.run_with_record(1, &record(&["y", "2", "five"])).is_err());
    assert!(program.run_with_record(2, &record(&["z", "two", "6"])).is_err());
    program.run_with_record(3, &record(&["w", "3", ""])).unwrap();
    assert_eq!(program.records_seen(), 2);
    assert_eq!(fields(&program.finalize()), vec!["2", "x", "4", "5"]);

    let mut groups =
        GroupAggregationProgram::parse("sum(v)", &record(&["k", "v"]), Native).unwrap();
    assert!(groups
        .run_with_record(b"new".to_vec(), 0, &record(&["new", "?"]))
        .is_err());
    assert_eq!(groups.records_seen(), 0);
    groups
        .run_with_record(b"old".to_vec(), 1, &record(&["old", "1"]))
        .unwrap();
    assert!(groups
        .run_with_record(b"old".to_vec(), 2, &record(&["old", "!"]))
        .is_err());
    let got: Vec<(Vec<u8>, Vec<String>)> = groups
        .into_byte_records()
        .into_iter()
        .map(|(key, r)| (key, fields(&r)))
        .collect();
    assert_eq!(got, vec![(b"old".to_vec(), vec!["1".to_string()])]);
}

#[test]
fn empty_strings_are_strings_to_extents_and_frequencies() {
    let got = aggregate(
        "lex_first(w), lex_last(w), mode(w), cardinality(w), count(w), first(w)",
        &["w"],
        &[&["b"], &[""], &["a"], &[""]],
    );
    assert_eq!(got, vec!["", "b", "", "3", "2", "b"]);
}

#[test]
fn records_that_cannot_be_run_are_refused() {
    let mut program =
        AggregationProgram::parse("sum(b), count()", &record(&["a", "b"]), Native).unwrap();
    assert_eq!(
        program.try_run_with_record(0, &record(&["only"])),
        Err(RunRefusal::RecordTooShort { expected: 2, got: 1 })
    );
    assert_eq!(program.records_seen(), 0);
    assert_eq!(program.try_run_with_record(1, &record(&["x", "4"])), Ok(Ok(())));
    assert!(matches!(
        program.try_run_with_record(2, &record(&["x", "four"])),
        Ok(Err(_))
    ));
    assert_eq!(program.try_run_with_record(3, &record(&["x", "5", "more"])), Ok(Ok(())));
    assert_eq!(program.records_seen(), 2);
    assert_eq!(fields(&program.finalize()), vec!["9", "2"]);

    let mut groups =
        GroupAggregationProgram::parse("sum(v)", &record(&["k", "v"]), Native).unwrap();
    assert_eq!(
        groups.try_run_with_record(b"g".to_vec(), 0, &record(&[])),
        Err(RunRefusal::RecordTooShort { expected: 2, got: 0 })
    );
    assert_eq!(groups.try_run_with_record(b"g".to_vec(), 1, &record(&["g", "2"])), Ok(Ok(())));
    assert_eq!(groups.records_seen(), 1);
    assert_eq!(groups.into_byte_records().len(), 1);
}

#[test]
fn the_first_unit_that_fails_gives_the_error() {
    let mut program =
        AggregationProgram::parse("sum(b), sum(a)", &record(&["a", "b"]), Native).unwrap();
    match program.run_with_record(0, &record(&["no", "neither"])) {
        Err(EvaluationError::Call(error)) => {
            assert_eq!(error.reason, CallError::CannotCoerceToNumber);
            assert_eq!(error.function_name, b"<agg-expr: b>".to_vec());
        }
        Ok(()) => panic!("expected an error"),
    }
    match program.run_with_record(1, &record(&["no", "3"])) {
        Err(EvaluationError::Call(error)) => {
            assert_eq!(error.function_name, b"<agg-expr: a>".to_vec());
        }
        Ok(()) => panic!("expected an error"),
    }
    assert_eq!(program.records_seen(), 0);
}

#[test]
fn the_same_rows_give_the_same_record_again() {
    let rows: [&[&str]; 4] = [&["1.5", "x"], &["2", "y"], &["", "x"], &["7", ""]];
    let code = "sum(a), mean(a), var_sample(a), median(a), mode(b), cardinality(b), lex_last(b)";
    let once = aggregate(code, &["a", "b"], &rows);
    let again = aggregate(code, &["a", "b"], &rows);
    assert_eq!(once, again);
    assert_eq!(once[0], "10.5");
    assert_eq!(once[1], "3.5");
    assert_eq!(once[3], "2");
    assert_eq!(once[4], "x");
    assert_eq!(once[5], "3");
    assert_eq!(once[6], "y");
}

#[test]
fn numbers_that_compare_equal_keep_their_order() {
    let mut numbers = Numbers::new();
    numbers.add(DynamicNumber::Integer(3));
    numbers.add(DynamicNumber::Float(lift(1.0)));
    numbers.add(DynamicNumber::Integer(1));
    numbers.add(DynamicNumber::Integer(0));
    numbers.finalize();
    assert_eq!(
        numbers.median(&MedianType::Low, &Native),
        Some(DynamicNumber::Float(lift(1.0)))
    );
    assert_eq!(numbers.median(&MedianType::High, &Native), Some(DynamicNumber::Integer(1)));

    let mut turned = Numbers::new();
    turned.add(DynamicNumber::Integer(3));
    turned.add(DynamicNumber::Integer(1));
    turned.add(DynamicNumber::Float(lift(1.0)));
    turned.add(DynamicNumber::Integer(0));
    turned.finalize();
    assert_eq!(turned.median(&MedianType::Low, &Native), Some(DynamicNumber::Integer(1)));
    assert_eq!(
        turned.median(&MedianType::High, &Native),
        Some(DynamicNumber::Float(lift(1.0)))
    );
}
