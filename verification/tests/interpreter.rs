use fancy::interpreter::decimal::{i64_to_string, parse_i64};
use fancy::interpreter::{
    can_evaluate, can_interpret, fn_min, fn_plus, interpret, lookup_symbol, sexpression,
    try_interpret, Operator,
};
use fancy::parser::Expression::SExpression;
use fancy::parser::{number, parse_buffer, parse_string, symbol, Expression};

/// The lines of the source files that the tests read.
fn resource(path: &str) -> Vec<String> {
    let lines: Vec<&str> = match path {
        "resources/interpreter/min.fc" => vec!["(- 10 4 (+ 1 2))", "3"],
        "resources/interpreter/plus.fc" => vec!["; a sum", "(+ 1 2 (+ 3 4) -5)", "5"],
        _ => panic!("no such resource: {}", path),
    };
    lines.into_iter().map(String::from).collect()
}

fn parse_file(path: String) -> Vec<Expression> {
    parse_buffer(resource(&path)).unwrap()
}

fn sym(name: &str) -> Expression {
    symbol(String::from(name))
}

fn num(text: &str) -> Expression {
    number(String::from(text))
}

fn eval(text: &str) -> Option<Expression> {
    try_interpret(parse_string(String::from(text)).unwrap())
}

#[test]
fn interpret_min_file() {
    let expressions = parse_file(String::from("resources/interpreter/min.fc"));
    assert_eq!(interpret(vec!(expressions[0].clone())), expressions[1]);
}

#[test]
fn interpret_plus_file() {
    let expressions = parse_file(String::from("resources/interpreter/plus.fc"));
    assert_eq!(interpret(vec!(expressions[0].clone())), expressions[1]);
}

#[test]
fn interpret_empty() {
    assert_eq!(interpret(vec!()), SExpression(vec!()));
}

#[test]
fn interpret_plus_1_2() {
    assert_eq!(interpret(vec!(SExpression(vec!(sym("+"), num("1"), num("2"))))), num("3"))
}

#[test]
fn interpret_plus_10_20() {
    assert_eq!(interpret(vec!(SExpression(vec!(sym("+"), num("10"), num("20"))))), num("30"))
}

#[test]
fn sums_and_differences() {
    assert_eq!(eval("(+)"), Some(num("0")));
    assert_eq!(eval("(+ 1 2 -4)"), Some(num("-1")));
    assert_eq!(eval("(+ 1 (+ 2 3) (- 10 4))"), Some(num("12")));
    assert_eq!(eval("(- 10)"), Some(num("10")));
    assert_eq!(eval("(- 10 3 2)"), Some(num("5")));
    assert_eq!(eval("(- 1 2)"), Some(num("-1")));
}

#[test]
fn operands_that_are_no_numbers_count_as_zero() {
    assert_eq!(eval("(+ 1 a \"2\" 3)"), Some(num("4")));
    assert_eq!(eval("(+ 1 7up)"), Some(num("1")));
    assert_eq!(eval("(- a 1)"), Some(num("-1")));
    assert_eq!(eval("(- (+ 5 5) 1)"), Some(num("-1")));
    assert_eq!(eval("(+ 99999999999999999999 1)"), Some(num("1")));
}

#[test]
fn arithmetic_wraps_round() {
    assert_eq!(eval("(+ 9223372036854775807 1)"), Some(num("-9223372036854775808")));
    assert_eq!(eval("(- -9223372036854775808 1)"), Some(num("9223372036854775807")));
}

#[test]
fn other_invocations_are_three() {
    assert_eq!(eval("(foo 1 2)"), Some(num("3")));
    assert_eq!(eval("(1 2)"), Some(num("3")));
    assert_eq!(eval("(foo ())"), Some(num("3")));
}

#[test]
fn only_the_last_expression_counts() {
    assert_eq!(eval("(+ 1 1) (+ 2 2)"), Some(num("4")));
    assert_eq!(eval("(+ 1 1) 7"), Some(SExpression(vec![])));
    assert_eq!(eval("7"), Some(SExpression(vec![])));
}

#[test]
fn what_cannot_be_evaluated() {
    assert_eq!(eval("()"), None);
    assert_eq!(eval("(-)"), None);
    assert_eq!(eval("(+ 1 ())"), None);
    assert_eq!(eval("(- 1 (-))"), None);
    assert_eq!(eval("() (+ 1 2)"), None);
    assert_eq!(eval("(- () 1)"), Some(num("-1")));
    assert!(!can_interpret(&vec![SExpression(vec![])]));
    assert!(can_interpret(&vec![SExpression(vec![sym("+")])]));
}

#[test]
fn operators_by_name() {
    assert_eq!(lookup_symbol(&String::from("+")), Operator::Plus);
    assert_eq!(lookup_symbol(&String::from("-")), Operator::Minus);
    assert_eq!(lookup_symbol(&String::from("*")), Operator::Other);
    assert_eq!(lookup_symbol(&String::from("error")), Operator::Other);
    assert_eq!(lookup_symbol(&String::from("")), Operator::Other);
}

#[test]
fn decimal_text_is_parsed_as_std_parses_it() {
    let texts = [
        "0", "7", "-7", "+7", "007", "-0", "", "-", "+", "1a", "a1", " 1", "1 ", "--1", "+-1",
        "9223372036854775807", "9223372036854775808", "-9223372036854775808",
        "-9223372036854775809", "123456789012345678901234567890", "\u{0663}", "1_000",
    ];
    for text in texts {
        assert_eq!(parse_i64(&String::from(text)), text.parse::<i64>().ok(), "{:?}", text);
    }
    assert_eq!(parse_i64(&String::from("-42")), Some(-42));
    assert_eq!(parse_i64(&String::from("x")), None);
}

#[test]
fn integers_are_written_as_std_writes_them() {
    let values =
        [0, 1, -1, 9, 10, -10, 99, 100, 12345, -12345, i64::MAX, i64::MIN, i64::MIN + 1];
    for value in values {
        assert_eq!(i64_to_string(value), value.to_string());
        assert_eq!(parse_i64(&i64_to_string(value)), Some(value));
    }
    assert_eq!(i64_to_string(-305), "-305");
}

#[test]
fn plus_adds_all_its_operands() {
    let operands = vec![
        num("1"),
        sym("x"),
        num("abc"),
        SExpression(vec![sym("+"), num("2"), num("3")]),
    ];
    assert_eq!(fn_plus(&operands), num("6"));
    assert_eq!(fn_plus(&vec![]), num("0"));
    assert_eq!(fn_plus(&vec![num("7")]), num("7"));
    assert_eq!(fn_plus(&vec![sym("+"), num("7")]), num("7"));
}

#[test]
fn minus_takes_the_others_from_the_first_operand() {
    assert_eq!(fn_min(&vec![num("10"), num("3"), num("2")]), num("5"));
    assert_eq!(fn_min(&vec![num("10")]), num("10"));
    assert_eq!(fn_min(&vec![sym("x"), num("3")]), num("-3"));
    assert_eq!(
        fn_min(&vec![SExpression(vec![sym("+"), num("9")]), num("3")]),
        num("-3")
    );
    assert_eq!(
        fn_min(&vec![num("10"), SExpression(vec![sym("-"), num("4"), num("1")])]),
        num("7")
    );
}

#[test]
fn an_invocation_applies_its_head_to_its_operands() {
    assert_eq!(sexpression(&vec![sym("+"), num("1"), num("2")]), num("3"));
    assert_eq!(sexpression(&vec![sym("-"), num("10"), num("3"), num("2")]), num("5"));
    assert_eq!(sexpression(&vec![sym("*"), num("10"), num("3")]), num("3"));
    assert_eq!(sexpression(&vec![num("1"), num("10")]), num("3"));
    assert_eq!(sexpression(&vec![sym("+")]), num("0"));
    assert!(can_evaluate(&vec![sym("-"), num("1")]));
    assert!(!can_evaluate(&vec![sym("-")]));
    assert!(!can_evaluate(&vec![]));
}
