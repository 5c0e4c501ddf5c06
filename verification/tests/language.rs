use csv::ByteRecord;
use moonblade::frequencies::Frequencies;
use moonblade::group_key::group_key;
use moonblade::number::exact_half;
use moonblade::numbers::midpoint;
use moonblade::interpreter::{call_function, Function};
use moonblade::parser::{parse_aggregations, parse_expression, Expr};
use moonblade::text::{integer_text, lex_compare, parse_integer};
use moonblade::{
    concretize_expression, eval_expr, AggregationProgram, Arity, CallError, Comparison,
    ConcreteArgument, ConcretizationError, DynamicNumber, DynamicValue, Extent, Float, FloatArith,
    Sum,
};

struct Native;

fn lift(value: f64) -> Float {
    Float::from_bits(value.to_bits())
}

fn lower(value: Float) -> f64 {
    f64::from_bits(value.to_bits())
}

impl FloatArith for Native {
    fn sum(&self, a: Float, b: Float) -> Float {
        lift(lower(a) + lower(b))
    }

    fn difference(&self, a: Float, b: Float) -> Float {
        lift(lower(a) - lower(b))
    }

    fn product(&self, a: Float, b: Float) -> Float {
        lift(lower(a) * lower(b))
    }

    fn quotient(&self, a: Float, b: Float) -> Float {
        lift(lower(a) / lower(b))
    }

    fn square_root(&self, a: Float) -> Float {
        lift(lower(a).sqrt())
    }

    fn from_integer(&self, value: i64) -> Float {
        lift(value as f64)
    }

    fn parse(&self, text: &[u8]) -> Option<Float> {
        std::str::from_utf8(text).ok()?.parse::<f64>().ok().map(lift)
    }

    fn format(&self, value: Float) -> Vec<u8> {
        format!("{}", lower(value)).into_bytes()
    }
}

fn record(fields: &[&str]) -> ByteRecord {
    let mut r = ByteRecord::new();
    for field in fields {
        r.push_field(field.as_bytes());
    }
    r
}

fn canonical(code: &str) -> String {
    String::from_utf8(parse_expression(code.as_bytes()).unwrap().canonical()).unwrap()
}

fn evaluate(code: &str, headers: &[&str], row: &[&str]) -> Result<String, CallError> {
    let expr = parse_expression(code.as_bytes()).unwrap();
    let bound = concretize_expression(&expr, &record(headers), &Native).unwrap();
    match eval_expr(&bound, &record(row), &Native) {
        Ok(value) => Ok(String::from_utf8(value.serialize_as_bytes(&Native)).unwrap()),
        Err(moonblade::EvaluationError::Call(error)) => Err(error.reason),
    }
}

fn number(text: &str) -> DynamicNumber {
    DynamicValue::String(text.as_bytes().to_vec())
        .try_as_number(&Native)
        .unwrap()
}

#[test]
fn operators_stand_for_calls() {
    assert_eq!(canonical("a + b * 2"), "add(a, mul(b, 2))");
    assert_eq!(canonical("a * b + 2"), "add(mul(a, b), 2)");
    assert_eq!(canonical("(a + b) * 2"), "mul(add(a, b), 2)");
    assert_eq!(canonical("a - b - c"), "sub(sub(a, b), c)");
    assert_eq!(canonical("a / b / c"), "div(div(a, b), c)");
    assert_eq!(canonical("-a + !b"), "add(neg(a), not(b))");
    assert_eq!(canonical("- - a"), "neg(neg(a))");
    assert_eq!(canonical("a < b && c >= d || e != f"), "or(and(lt(a, b), ge(c, d)), ne(e, f))");
    assert_eq!(canonical("a == b"), "eq(a, b)");
    assert_eq!(canonical("a <= b"), "le(a, b)");
    assert_eq!(canonical("a > b"), "gt(a, b)");
}

#[test]
fn pipes_put_the_left_side_first() {
    assert_eq!(canonical("a | f(b)"), "f(a, b)");
    assert_eq!(canonical("a | f"), "f(a)");
    assert_eq!(canonical("a + 1 | f(b, c) | g"), "g(f(add(a, 1), b, c))");
    assert_eq!(canonical("a || b | f"), "f(or(a, b))");
}

#[test]
fn canonical_text_of_primaries() {
    assert_eq!(canonical("  name  "), "name");
    assert_eq!(canonical("`name`"), "name");
    assert_eq!(canonical("`first name`"), "`first name`");
    assert_eq!(canonical("`true`"), "`true`");
    assert_eq!(canonical("true"), "true");
    assert_eq!(canonical("false"), "false");
    assert_eq!(canonical("null"), "null");
    assert_eq!(canonical("'it'"), "\"it\"");
    assert_eq!(canonical("'say \"hi\"'"), "\"say \\\"hi\\\"\"");
    assert_eq!(canonical("\"back\\\\slash\""), "\"back\\\\slash\"");
    assert_eq!(canonical("'a\\'b'"), "\"a'b\"");
    assert_eq!(canonical("007"), "7");
    assert_eq!(canonical("1.50"), "1.50");
    assert_eq!(canonical("99999999999999999999"), "99999999999999999999");
    assert_eq!(canonical("f( )"), "f()");
    assert_eq!(canonical("f(a,b ,  c)"), "f(a, b, c)");
}

#[test]
fn parsed_trees() {
    assert_eq!(
        parse_expression(b"add(n, 2)").unwrap(),
        Expr::Call(
            b"add".to_vec(),
            vec![Expr::Identifier(b"n".to_vec()), Expr::Integer(2)]
        )
    );
    assert_eq!(
        parse_expression(b"9223372036854775807").unwrap(),
        Expr::Integer(i64::MAX)
    );
    assert_eq!(
        parse_expression(b"9223372036854775808").unwrap(),
        Expr::Float(b"9223372036854775808".to_vec())
    );
    assert_eq!(parse_expression(b"2.5").unwrap(), Expr::Float(b"2.5".to_vec()));
    assert_eq!(parse_expression(b"'x y'").unwrap(), Expr::String(b"x y".to_vec()));
}

#[test]
fn canonical_text_reads_back_as_the_same_tree() {
    for code in [
        "a + b * 2",
        "`first name` | concat('x\"y\\\\z') | len",
        "f(true, null, 1.25, 99999999999999999999, g())",
        "-x < !`true`",
        "coalesce(a, \"\")",
    ] {
        let tree = parse_expression(code.as_bytes()).unwrap();
        let text = tree.canonical();
        let again = parse_expression(&text).unwrap();
        assert_eq!(again, tree, "{}", code);
        assert_eq!(again.canonical(), text, "{}", code);
        let headers = record(&["a", "b", "x", "true", "first name"]);
        assert_eq!(
            concretize_expression(&again, &headers, &Native),
            concretize_expression(&tree, &headers, &Native),
            "{}",
            code
        );
    }
}

#[test]
fn sources_that_are_no_expression() {
    for code in ["", "a +", "(a", "a b", "f(a,)", "'open", "`open", "a | 1", "a , b", "+a", "a &| b", "1."] {
        let r = parse_expression(code.as_bytes());
        assert_eq!(r.err().map(|e| e.source), Some(code.as_bytes().to_vec()), "{}", code);
    }
}

#[test]
fn aggregation_lists() {
    let list = parse_aggregations(
        b" sum( a + 1 ) as total , count() , max(b) as \"the top\", min(`a`) as `low a` ",
    )
    .unwrap();
    let seen: Vec<(String, String, String, usize)> = list
        .iter()
        .map(|a| {
            (
                String::from_utf8(a.agg_name.clone()).unwrap(),
                String::from_utf8(a.func_name.clone()).unwrap(),
                String::from_utf8(a.expr_key.clone()).unwrap(),
                a.args.len(),
            )
        })
        .collect();
    let expected = [
        ("total", "sum", "add(a, 1)", 1),
        ("count()", "count", "", 0),
        ("the top", "max", "b", 1),
        ("low a", "min", "a", 1),
    ];
    assert_eq!(seen.len(), expected.len());
    for (got, want) in seen.iter().zip(expected.iter()) {
        assert_eq!(
            (got.0.as_str(), got.1.as_str(), got.2.as_str(), got.3),
            *want
        );
    }
}

#[test]
fn alias_needs_blanks_around_as() {
    assert!(parse_aggregations(b"max(b)as top").is_err());
    assert!(parse_aggregations(b"max(b) astop").is_err());
    let list = parse_aggregations(b"max(b) as top").unwrap();
    assert_eq!(list[0].agg_name, b"top".to_vec());
    let list = parse_aggregations(b"max(b) as 'the top'").unwrap();
    assert_eq!(list[0].agg_name, b"the top".to_vec());
    let list = parse_aggregations(b"max(b) as `low b`").unwrap();
    assert_eq!(list[0].agg_name, b"low b".to_vec());
    let list = parse_aggregations(b"max(  `b` )").unwrap();
    assert_eq!(list[0].agg_name, b"max(b)".to_vec());
}

#[test]
fn expressions_evaluate() {
    let headers = ["a", "b", "s"];
    let row = ["7", "2", "xy"];
    assert_eq!(evaluate("a + b * 3", &headers, &row), Ok("13".to_string()));
    assert_eq!(evaluate("a - b", &headers, &row), Ok("5".to_string()));
    assert_eq!(evaluate("a / b", &headers, &row), Ok("3.5".to_string()));
    assert_eq!(evaluate("-a", &headers, &row), Ok("-7".to_string()));
    assert_eq!(evaluate("-1.5", &headers, &row), Ok("-1.5".to_string()));
    assert_eq!(evaluate("a + 0.5", &headers, &row), Ok("7.5".to_string()));
    assert_eq!(evaluate("a > b", &headers, &row), Ok("true".to_string()));
    assert_eq!(evaluate("a <= b", &headers, &row), Ok("false".to_string()));
    assert_eq!(evaluate("a == 7.0", &headers, &row), Ok("true".to_string()));
    assert_eq!(evaluate("a != 7", &headers, &row), Ok("false".to_string()));
    assert_eq!(evaluate("!s", &headers, &row), Ok("false".to_string()));
    assert_eq!(evaluate("a > b && !s", &headers, &row), Ok("false".to_string()));
    assert_eq!(evaluate("a < b || s", &headers, &row), Ok("true".to_string()));
    assert_eq!(evaluate("s | concat(a) | len", &headers, &row), Ok("3".to_string()));
    assert_eq!(evaluate("coalesce('', s)", &headers, &row), Ok("xy".to_string()));
    assert_eq!(evaluate("coalesce(null, null)", &headers, &row), Ok("".to_string()));
    assert_eq!(evaluate("9223372036854775807 + 1", &headers, &row), Ok(i64::MIN.to_string()));
    assert_eq!(evaluate("s + 1", &headers, &row), Err(CallError::CannotCoerceToNumber));
    assert_eq!(evaluate("1 < true", &headers, &row), Err(CallError::CannotCoerceToNumber));
}

#[test]
fn the_first_column_of_a_name_is_bound() {
    let headers = record(&["x", "y", "x"]);
    let expr = parse_expression(b"add(x, y)").unwrap();
    assert_eq!(
        concretize_expression(&expr, &headers, &Native),
        Ok(ConcreteArgument::Call(
            Function::Plus,
            vec![ConcreteArgument::Column(0), ConcreteArgument::Column(1)]
        ))
    );
    let expr = parse_expression(b"add(x)").unwrap();
    assert_eq!(
        concretize_expression(&expr, &headers, &Native),
        Err(ConcretizationError::InvalidArity {
            name: b"add".to_vec(),
            expected: Arity::Strict(2),
            got: 1
        })
    );
    let expr = parse_expression(b"shout(x)").unwrap();
    assert_eq!(
        concretize_expression(&expr, &headers, &Native),
        Err(ConcretizationError::UnknownFunction(b"shout".to_vec()))
    );
    let expr = parse_expression(b"add(x, z)").unwrap();
    assert_eq!(
        concretize_expression(&expr, &headers, &Native),
        Err(ConcretizationError::UnknownIdentifier(b"z".to_vec()))
    );
}

#[test]
fn functions_apply_to_values() {
    let two = DynamicValue::Integer(2);
    let half = DynamicValue::Float(lift(0.5));
    let r = call_function(Function::Times, &vec![two.clone(), half.clone()], &Native).unwrap();
    assert_eq!(r, DynamicValue::Float(lift(1.0)));
    let r = call_function(Function::Negate, &vec![half.clone()], &Native).unwrap();
    assert_eq!(r, DynamicValue::Float(lift(-0.5)));
    let r = call_function(Function::Negate, &vec![DynamicValue::Integer(i64::MIN)], &Native);
    assert_eq!(r, Ok(DynamicValue::Integer(i64::MIN)));
    let r = call_function(Function::Length, &vec![DynamicValue::Null], &Native);
    assert_eq!(r, Ok(DynamicValue::Integer(0)));
    let r = call_function(Function::Not, &vec![DynamicValue::Null], &Native);
    assert_eq!(r, Ok(DynamicValue::Boolean(true)));
}

#[test]
fn integers_as_text_and_back() {
    for (value, text) in [
        (0i64, "0"),
        (7, "7"),
        (-7, "-7"),
        (1234567890, "1234567890"),
        (i64::MAX, "9223372036854775807"),
        (i64::MIN, "-9223372036854775808"),
    ] {
        assert_eq!(integer_text(value), text.as_bytes().to_vec());
        assert_eq!(parse_integer(text.as_bytes()), Some(value));
    }
    assert_eq!(parse_integer(b"+12"), Some(12));
    assert_eq!(parse_integer(b"0012"), Some(12));
    assert_eq!(parse_integer(b"-0"), Some(0));
    for text in ["", "-", "+", "1 ", " 1", "1.0", "12a", "--1", "9223372036854775808", "-9223372036854775809", "99999999999999999999999"] {
        assert_eq!(parse_integer(text.as_bytes()), None, "{}", text);
    }
}

#[test]
fn values_read_as_numbers_text_and_truth() {
    assert_eq!(number("12"), DynamicNumber::Integer(12));
    assert_eq!(number("1.5"), DynamicNumber::Float(lift(1.5)));
    assert_eq!(number("1e2"), DynamicNumber::Float(lift(100.0)));
    assert_eq!(number("99999999999999999999"), DynamicNumber::Float(lift(1e20)));
    for value in [
        DynamicValue::String(b"twelve".to_vec()),
        DynamicValue::String(Vec::new()),
        DynamicValue::Boolean(true),
        DynamicValue::Null,
    ] {
        assert_eq!(value.try_as_number(&Native), Err(CallError::CannotCoerceToNumber));
        assert_eq!(value.try_as_float(&Native), Err(CallError::CannotCoerceToNumber));
    }
    assert_eq!(DynamicValue::Integer(3).try_as_float(&Native), Ok(lift(3.0)));

    let text = |value: DynamicValue| String::from_utf8(value.try_as_str(&Native).unwrap()).unwrap();
    assert_eq!(text(DynamicValue::Integer(-40)), "-40");
    assert_eq!(text(DynamicValue::Float(lift(0.1))), "0.1");
    assert_eq!(text(DynamicValue::Float(lift(f64::NAN))), "nan");
    assert_eq!(text(DynamicValue::Float(lift(f64::INFINITY))), "inf");
    assert_eq!(text(DynamicValue::Float(lift(f64::NEG_INFINITY))), "-inf");
    assert_eq!(text(DynamicValue::Boolean(true)), "true");
    assert_eq!(text(DynamicValue::Boolean(false)), "false");
    assert_eq!(text(DynamicValue::Null), "");
    assert_eq!(text(DynamicValue::String(b"as is".to_vec())), "as is");

    for (value, truthy, nullish) in [
        (DynamicValue::Null, false, true),
        (DynamicValue::String(Vec::new()), false, true),
        (DynamicValue::String(b"0".to_vec()), true, false),
        (DynamicValue::Boolean(false), false, false),
        (DynamicValue::Boolean(true), true, false),
        (DynamicValue::Integer(0), false, false),
        (DynamicValue::Integer(-1), true, false),
        (DynamicValue::Float(lift(0.0)), false, false),
        (DynamicValue::Float(lift(-0.0)), false, false),
        (DynamicValue::Float(lift(f64::NAN)), false, false),
        (DynamicValue::Float(lift(1e-300)), true, false),
    ] {
        assert_eq!(value.is_truthy(), truthy, "{:?}", value);
        assert_eq!(value.is_nullish(), nullish, "{:?}", value);
    }
}

#[test]
fn numbers_compare_exactly() {
    let int = DynamicNumber::Integer;
    let float = |v: f64| DynamicNumber::Float(lift(v));
    let cases = [
        (int(1), int(2), Comparison::Less),
        (int(-5), int(-5), Comparison::Equal),
        (float(1.5), float(-1.5), Comparison::Greater),
        (float(0.0), float(-0.0), Comparison::Equal),
        (float(f64::NAN), float(f64::INFINITY), Comparison::Greater),
        (float(f64::NAN), float(-f64::NAN), Comparison::Equal),
        (float(f64::NEG_INFINITY), float(f64::MIN), Comparison::Less),
        (float(5e-324), float(0.0), Comparison::Greater),
        (int(1), float(1.0), Comparison::Equal),
        (int(0), float(-0.0), Comparison::Equal),
        (int(1), float(1.5), Comparison::Less),
        (int(2), float(1.5), Comparison::Greater),
        (int(-1), float(-1.5), Comparison::Greater),
        (int(-2), float(-1.5), Comparison::Less),
        (int(0), float(5e-324), Comparison::Less),
        (int(0), float(-5e-324), Comparison::Greater),
        (int(1), float(5e-324), Comparison::Greater),
        (int(i64::MAX), float(9223372036854775807.0), Comparison::Less),
        (int(i64::MIN), float(-9223372036854775808.0), Comparison::Equal),
        (int(i64::MIN), float(-9223372036854777856.0), Comparison::Greater),
        (int(9007199254740993), float(9007199254740992.0), Comparison::Greater),
        (int(9007199254740993), float(9007199254740994.0), Comparison::Less),
        (int(i64::MAX), float(f64::INFINITY), Comparison::Less),
        (int(i64::MIN), float(f64::NEG_INFINITY), Comparison::Greater),
        (int(i64::MAX), float(f64::NAN), Comparison::Less),
        (int(3), float(1e300), Comparison::Less),
        (int(-3), float(-1e300), Comparison::Greater),
        (int(1 << 60), float((1u64 << 60) as f64), Comparison::Equal),
        (int(3), float(3.0000000000000004), Comparison::Less),
    ];
    for (a, b, expected) in cases {
        assert_eq!(a.compare(&b), expected, "{:?} {:?}", a, b);
        let flipped = match expected {
            Comparison::Less => Comparison::Greater,
            Comparison::Equal => Comparison::Equal,
            Comparison::Greater => Comparison::Less,
        };
        assert_eq!(b.compare(&a), flipped, "{:?} {:?}", b, a);
        assert_eq!(a.lt(&b), expected == Comparison::Less);
        assert_eq!(a.le(&b), expected != Comparison::Greater);
    }
}

#[test]
fn float_comparison_agrees_with_the_machine() {
    let samples = [
        0.0, -0.0, 1.0, -1.0, 0.5, 2.5, -2.5, 1e-310, -1e-310, 5e-324, 1e308, -1e308,
        f64::MAX, f64::MIN, f64::INFINITY, f64::NEG_INFINITY, 3.0000000000000004, 3.0,
    ];
    for a in samples {
        for b in samples {
            let expected = match a.partial_cmp(&b).unwrap() {
                std::cmp::Ordering::Less => Comparison::Less,
                std::cmp::Ordering::Equal => Comparison::Equal,
                std::cmp::Ordering::Greater => Comparison::Greater,
            };
            assert_eq!(lift(a).compare(lift(b)), expected, "{} {}", a, b);
        }
    }
}

#[test]
fn strings_compare_by_their_bytes() {
    assert_eq!(lex_compare(b"", b""), Comparison::Equal);
    assert_eq!(lex_compare(b"", b"a"), Comparison::Less);
    assert_eq!(lex_compare(b"a", b""), Comparison::Greater);
    assert_eq!(lex_compare(b"apple", b"apple"), Comparison::Equal);
    assert_eq!(lex_compare(b"apple", b"apples"), Comparison::Less);
    assert_eq!(lex_compare(b"banana", b"apple"), Comparison::Greater);
    assert_eq!(lex_compare(b"Z", b"a"), Comparison::Less);
    assert_eq!(lex_compare(&[0xff], b"z"), Comparison::Greater);
}

#[test]
fn mode_prefers_the_greatest_of_the_most_frequent() {
    let mut seen = Frequencies::new();
    assert_eq!(seen.mode(), None);
    assert_eq!(seen.cardinality(), 0);
    for word in ["pear", "apple", "fig", "apple", "pear", "kiwi"] {
        seen.add(word.as_bytes().to_vec());
    }
    assert_eq!(seen.mode(), Some(b"pear".to_vec()));
    assert_eq!(seen.cardinality(), 4);
    seen.add(b"apple".to_vec());
    assert_eq!(seen.mode(), Some(b"apple".to_vec()));
    seen.clear();
    assert_eq!(seen.mode(), None);
}

#[test]
fn integer_sums_wrap_and_do_not_depend_on_order() {
    let values = [i64::MAX, 5, -7, i64::MIN, 1 << 52, 12, i64::MAX];
    let mut forward = Sum::new();
    for v in values {
        forward.add(&DynamicNumber::Integer(v), &Native);
    }
    let mut backward = Sum::new();
    for v in values.iter().rev() {
        backward.add(&DynamicNumber::Integer(*v), &Native);
    }
    let total: i128 = values.iter().map(|v| *v as i128).sum();
    assert_eq!(forward.get(), DynamicNumber::Integer(total as i64));
    assert_eq!(forward.get(), backward.get());

    let mut exact = Sum::new();
    for _ in 0..1000 {
        exact.add(&DynamicNumber::Integer(1 << 52), &Native);
    }
    assert_eq!(exact.get(), DynamicNumber::Integer(1000 * (1 << 52)));

    let mut wrapped = Sum::new();
    for _ in 0..2048 {
        wrapped.add(&DynamicNumber::Integer(1 << 52), &Native);
    }
    assert_eq!(wrapped.get(), DynamicNumber::Integer(i64::MIN));
}

#[test]
fn extent_keeps_the_first_of_equal_numbers() {
    let mut extent = Extent::new();
    assert_eq!(extent.min(), None);
    assert_eq!(extent.max(), None);
    for text in ["3", "1.0", "7", "1", "7.0", "-2.5"] {
        extent.add(number(text));
    }
    assert_eq!(extent.min(), Some(DynamicNumber::Float(lift(-2.5))));
    assert_eq!(extent.max(), Some(DynamicNumber::Integer(7)));
    extent.clear();
    extent.add(number("1.0"));
    extent.add(number("1"));
    assert_eq!(extent.min(), Some(DynamicNumber::Float(lift(1.0))));
    assert_eq!(extent.max(), Some(DynamicNumber::Float(lift(1.0))));
}

#[test]
fn mixed_numbers_sort_into_one_order() {
    let mut program =
        AggregationProgram::parse("median_low(n), median_high(n), min(n), max(n)", &record(&["n"]), Native)
            .unwrap();
    for (index, value) in ["10", "2.5", "-1", "2", "1e3", "3"].iter().enumerate() {
        program.run_with_record(index, &record(&[value])).unwrap();
    }
    let r = program.finalize();
    let got: Vec<&[u8]> = r.iter().collect();
    assert_eq!(got, vec![&b"2.5"[..], &b"3"[..], &b"-1"[..], &b"1000"[..]]);
}

#[test]
fn columns_are_found_by_their_place_in_the_header() {
    let mut program =
        AggregationProgram::parse("max(c), first(b), count(a)", &record(&["a", "b", "c"]), Native)
            .unwrap();
    assert_eq!(program.width(), 3);
    program.run_with_record(0, &record(&["", "left", "4"])).unwrap();
    program.run_with_record(1, &record(&["x", "right", "9", "extra"])).unwrap();
    assert_eq!(program.records_seen(), 2);
    let r = program.finalize();
    assert_eq!(r.len(), 3);
    assert_eq!(r.get(0), Some(&b"9"[..]));
    assert_eq!(r.get(1), Some(&b"left"[..]));
    assert_eq!(r.get(2), Some(&b"1"[..]));
}

#[test]
fn group_keys_frame_their_values() {
    let r = record(&["ab", "", "c:d", "0123456789x"]);
    assert_eq!(group_key(&r, &vec![]), Some(Vec::new()));
    assert_eq!(group_key(&r, &vec![0]), Some(b"2:ab".to_vec()));
    assert_eq!(group_key(&r, &vec![1]), Some(b"0:".to_vec()));
    assert_eq!(group_key(&r, &vec![2, 0, 1, 3]), Some(b"3:c:d2:ab0:11:0123456789x".to_vec()));
    assert_eq!(group_key(&r, &vec![0, 4]), None);
    // Values that only differ in where one ends and the next begins.
    let left = group_key(&record(&["a", "bc"]), &vec![0, 1]);
    let right = group_key(&record(&["ab", "c"]), &vec![0, 1]);
    assert_eq!(left, Some(b"1:a2:bc".to_vec()));
    assert_eq!(right, Some(b"2:ab1:c".to_vec()));
}

struct Silent;

impl FloatArith for Silent {
    fn sum(&self, _: Float, _: Float) -> Float {
        Float::from_bits(0)
    }

    fn difference(&self, _: Float, _: Float) -> Float {
        Float::from_bits(0)
    }

    fn product(&self, _: Float, _: Float) -> Float {
        Float::from_bits(0)
    }

    fn quotient(&self, _: Float, _: Float) -> Float {
        Float::from_bits(0)
    }

    fn square_root(&self, _: Float) -> Float {
        Float::from_bits(0)
    }

    fn from_integer(&self, _: i64) -> Float {
        Float::from_bits(0)
    }

    fn parse(&self, _: &[u8]) -> Option<Float> {
        None
    }

    fn format(&self, _: Float) -> Vec<u8> {
        Vec::new()
    }
}

#[test]
fn small_integers_are_halved_without_the_arithmetic() {
    let limit = 1i64 << 53;
    for total in [
        0i64, 1, -1, 2, 3, 8, -8, 9, 1023, -4097, 1 << 52, (1 << 52) + 1, limit - 1, 1 - limit,
    ] {
        assert_eq!(exact_half(total), lift(total as f64 / 2.0), "{}", total);
    }
    for (a, b) in [(2i64, 6i64), (1, 2), (-7, 7), (-3, -4), (0, 0), (limit - 2, 1), (i64::MIN + 1, i64::MAX)] {
        let want = DynamicNumber::Float(lift((a as f64 + b as f64) / 2.0));
        let (down, up) = (DynamicNumber::Integer(a), DynamicNumber::Integer(b));
        assert_eq!(midpoint(&down, &up, &Silent), want, "{} {}", a, b);
        assert_eq!(midpoint(&down, &up, &Native), want, "{} {}", a, b);
    }
}

#[test]
fn other_means_are_left_to_the_arithmetic() {
    let cases = [
        (DynamicNumber::Integer(1), DynamicNumber::Float(lift(2.5)), 1.75),
        (DynamicNumber::Float(lift(-1.0)), DynamicNumber::Float(lift(4.0)), 1.5),
        (DynamicNumber::Integer(1 << 53), DynamicNumber::Integer(2), ((1u64 << 52) + 1) as f64),
        (DynamicNumber::Integer(i64::MAX), DynamicNumber::Integer(i64::MAX), 9223372036854775807.0),
    ];
    for (down, up, want) in cases {
        assert_eq!(midpoint(&down, &up, &Native), DynamicNumber::Float(lift(want)));
        assert_eq!(midpoint(&down, &up, &Silent), DynamicNumber::Float(Float::from_bits(0)));
    }
}

#[test]
fn the_first_argument_that_fails_gives_the_error() {
    let expr = parse_expression(b"add(neg(a), mul(a, 1))").unwrap();
    let bound = concretize_expression(&expr, &record(&["a"]), &Native).unwrap();
    match eval_expr(&bound, &record(&["xy"]), &Native) {
        Err(moonblade::EvaluationError::Call(error)) => {
            assert_eq!(error.function_name, b"neg".to_vec());
            assert_eq!(error.reason, CallError::CannotCoerceToNumber);
        }
        Ok(_) => panic!("expected an error"),
    }
    assert_eq!(evaluate("add(len(a), 1)", &["a"], &["xy"]), Ok("3".to_string()));
    assert_eq!(evaluate("a + 1.5", &["a"], &["2"]), Ok("3.5".to_string()));
    assert_eq!(evaluate("a / 2", &["a"], &["3"]), Ok("1.5".to_string()));
    assert_eq!(evaluate("concat(a, 0.5)", &["a"], &["x"]), Ok("x0.5".to_string()));
}
