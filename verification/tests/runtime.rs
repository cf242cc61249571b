use fancy::parser::{number, parse_string, string, symbol, Expression};
use fancy::runtime::{action_for, Action, Refusal};

fn sym(name: &str) -> Expression {
    symbol(String::from(name))
}

fn num(text: &str) -> Expression {
    number(String::from(text))
}

fn text(text: &str) -> Expression {
    string(String::from(text))
}

fn first(source: &str) -> Expression {
    parse_string(String::from(source)).unwrap().remove(0)
}

fn call(name: &str, arguments: Vec<Expression>) -> Action {
    Action::Call { name: String::from(name), arguments }
}

#[test]
fn plain_expressions() {
    assert_eq!(action_for(&sym("x")), Ok(Action::Lookup(String::from("x"))));
    assert_eq!(action_for(&text("a b")), Ok(Action::Text(String::from("a b"))));
    assert_eq!(action_for(&num("42")), Ok(call("atof", vec![text("42")])));
    assert_eq!(action_for(&Expression::ParameterList(vec![])), Err(Refusal::Params));
}

#[test]
fn the_empty_invocation_is_the_number_zero() {
    assert_eq!(action_for(&first("()")), Ok(call("atof", vec![text("0")])));
}

#[test]
fn calls() {
    assert_eq!(action_for(&first("(add 1 x)")), Ok(call("add", vec![num("1"), sym("x")])));
    assert_eq!(action_for(&first("(f)")), Ok(call("f", vec![])));
    assert_eq!(action_for(&first("(1 2)")), Err(Refusal::ExpectedSymbol(num("1"))));
    assert_eq!(
        action_for(&first("((f) 2)")),
        Err(Refusal::ExpectedSymbol(Expression::SExpression(vec![sym("f")])))
    );
}

#[test]
fn declarations() {
    assert_eq!(
        action_for(&first("(extern sin #[x])")),
        Ok(Action::Declare { name: String::from("sin"), params: vec![sym("x")] })
    );
    assert_eq!(action_for(&first("(extern sin)")), Err(Refusal::ExternArity));
    assert_eq!(action_for(&first("(extern)")), Err(Refusal::ExternArity));
    assert_eq!(action_for(&first("(extern sin #[x] 1)")), Err(Refusal::ExternArity));
    assert_eq!(action_for(&first("(extern 1 #[x])")), Err(Refusal::ExpectedSymbol(num("1"))));
    assert_eq!(
        action_for(&first("(extern sin [x])")),
        Err(Refusal::ExpectedParams(Expression::SExpression(vec![sym("vector"), sym("x")])))
    );
}

#[test]
fn definitions() {
    assert_eq!(
        action_for(&first("(fn inc #[a] (add a 1))")),
        Ok(Action::Define {
            name: String::from("inc"),
            params: vec![sym("a")],
            body: vec![Expression::SExpression(vec![sym("add"), sym("a"), num("1")])],
        })
    );
    assert_eq!(
        action_for(&first("(fn nothing #[])")),
        Ok(Action::Define { name: String::from("nothing"), params: vec![], body: vec![] })
    );
    assert_eq!(action_for(&first("(fn f)")), Err(Refusal::FnArity));
    assert_eq!(action_for(&first("(fn)")), Err(Refusal::FnArity));
    assert_eq!(action_for(&first("(fn \"f\" #[])")), Err(Refusal::ExpectedSymbol(text("f"))));
    assert_eq!(action_for(&first("(fn f x 1)")), Err(Refusal::ExpectedParams(sym("x"))));
}
