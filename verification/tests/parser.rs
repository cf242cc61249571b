use fancy::parser::reader::{read, Form, Outer, ReadError};
use fancy::parser::tokenizer::{tokenize, Token, TokenInfo, TokenList};
use fancy::parser::{
    build, number, parse, parse_buffer, parse_string, string, symbol, Expression, ParseError,
};

fn sym(name: &str) -> Expression {
    symbol(String::from(name))
}

fn num(text: &str) -> Expression {
    number(String::from(text))
}

fn forms_of(text: &str) -> Result<Vec<Form>, ReadError> {
    read(tokenize(String::from(text))).collect()
}

fn at(column: usize) -> TokenInfo {
    TokenInfo { line: 0, char: column }
}

fn lit(text: &str, column: usize) -> Form {
    Form::Literal(String::from(text), at(column))
}

#[test]
fn invocation_with_negative_number() {
    assert_eq!(
        parse_string(String::from("(+ 1 2 -3)")),
        Ok(vec![Expression::SExpression(vec![sym("+"), num("1"), num("2"), num("-3")])])
    );
}

#[test]
fn set_literal_becomes_invocation_of_set() {
    assert_eq!(
        parse_string(String::from("#{1 2}")),
        Ok(vec![Expression::SExpression(vec![sym("set"), num("1"), num("2")])])
    );
}

#[test]
fn vector_literal_becomes_invocation_of_vector() {
    assert_eq!(
        parse_string(String::from("[1 2]")),
        Ok(vec![Expression::SExpression(vec![sym("vector"), num("1"), num("2")])])
    );
}

#[test]
fn map_literal_becomes_invocation_of_hash_map() {
    assert_eq!(
        parse_string(String::from("{a 1}")),
        Ok(vec![Expression::SExpression(vec![sym("hash-map"), sym("a"), num("1")])])
    );
}

#[test]
fn parameter_list() {
    assert_eq!(
        parse_string(String::from("(fn f #[a b] (+ a b))")),
        Ok(vec![Expression::SExpression(vec![
            sym("fn"),
            sym("f"),
            Expression::ParameterList(vec![sym("a"), sym("b")]),
            Expression::SExpression(vec![sym("+"), sym("a"), sym("b")]),
        ])])
    );
}

#[test]
fn comment_inside_a_list_changes_nothing() {
    assert_eq!(
        parse_string(String::from("(test ;; comment\n 1)")),
        parse_string(String::from("(test 1)"))
    );
    assert_eq!(
        parse_string(String::from("(test 1)")),
        Ok(vec![Expression::SExpression(vec![sym("test"), num("1")])])
    );
}

#[test]
fn unterminated_list_is_a_structural_error() {
    assert_eq!(
        parse_string(String::from("(1")),
        Err(ParseError::Read(ReadError::Expected {
            outer: Outer::InList,
            expected: Token::ListClose,
            found: None,
        }))
    );
    let mut stream = parse(read(tokenize(String::from("(1"))));
    assert!(matches!(stream.next(), Err(ParseError::Read(_))));
    assert_eq!(stream.next(), Ok(None));
}

#[test]
fn string_expression_keeps_its_body() {
    assert_eq!(
        parse_string(String::from("\"a  b,\n;c (\"")),
        Ok(vec![string(String::from("a  b,\n;c ("))])
    );
    assert_eq!(parse_string(String::from("\"\"")), Ok(vec![string(String::new())]));
}

#[test]
fn literal_classification() {
    assert_eq!(parse_string(String::from("7")), Ok(vec![num("7")]));
    assert_eq!(parse_string(String::from("7up")), Ok(vec![num("7up")]));
    assert_eq!(parse_string(String::from("-7")), Ok(vec![num("-7")]));
    assert_eq!(parse_string(String::from("-")), Ok(vec![sym("-")]));
    assert_eq!(parse_string(String::from("-a")), Ok(vec![sym("-a")]));
    assert_eq!(parse_string(String::from("a1")), Ok(vec![sym("a1")]));
    assert_eq!(parse_string(String::from("+1")), Ok(vec![sym("+1")]));
}

#[test]
fn several_top_level_expressions() {
    assert_eq!(
        parse_string(String::from("a (b) 3")),
        Ok(vec![sym("a"), Expression::SExpression(vec![sym("b")]), num("3")])
    );
    assert_eq!(parse_string(String::from("")), Ok(vec![]));
}

#[test]
fn unknown_dispatch_is_rejected() {
    assert_eq!(
        parse_string(String::from("#(a)")),
        Err(ParseError::UnknownDispatch { prefix: String::from("#("), at: at(1) })
    );
    assert_eq!(
        parse_string(String::from("#foo")),
        Err(ParseError::UnknownDispatch { prefix: String::from("#foo"), at: at(1) })
    );
    assert_eq!(
        parse_string(String::from("1 #foo (")),
        Err(ParseError::UnknownDispatch { prefix: String::from("#foo"), at: at(3) })
    );
}

#[test]
fn nested_forms() {
    assert_eq!(
        forms_of("(a [b {c}] #{d} #e \"s\")"),
        Ok(vec![Form::List(vec![
            lit("a", 2),
            Form::Vector(vec![lit("b", 5), Form::Mapping(vec![lit("c", 8)])]),
            Form::Dispatch(String::from("#{"), vec![lit("d", 14)], at(12)),
            Form::Dispatch(String::from("#e"), vec![], at(17)),
            Form::StringBody(String::from("s")),
        ])])
    );
}

#[test]
fn form_stream_yields_forms_one_by_one() {
    let mut stream = read(tokenize(String::from("a (b) ")));
    assert_eq!(stream.next(), Ok(Some(lit("a", 1))));
    assert_eq!(stream.next(), Ok(Some(Form::List(vec![lit("b", 4)]))));
    assert_eq!(stream.next(), Ok(None));
}

#[test]
fn closing_token_of_another_kind_is_unmatched() {
    assert_eq!(
        forms_of("(a ]"),
        Err(ReadError::UnmatchedClosing {
            outer: Outer::InList,
            closing: Token::VectorClose,
            at: TokenInfo { line: 0, char: 4 },
        })
    );
    assert_eq!(
        forms_of(")"),
        Err(ReadError::UnmatchedClosing {
            outer: Outer::TopLevel,
            closing: Token::ListClose,
            at: TokenInfo { line: 0, char: 1 },
        })
    );
}

#[test]
fn dispatch_group_names_the_closer_it_expected() {
    assert_eq!(
        forms_of("#{1 )"),
        Err(ReadError::Expected {
            outer: Outer::InDispatch,
            expected: Token::MapClose,
            found: Some((Token::ListClose, TokenInfo { line: 0, char: 5 })),
        })
    );
    assert_eq!(
        forms_of("#{1"),
        Err(ReadError::Expected {
            outer: Outer::InDispatch,
            expected: Token::MapClose,
            found: None,
        })
    );
}

#[test]
fn open_strings_are_errors() {
    assert_eq!(forms_of("\""), Err(ReadError::OpenString { at: TokenInfo { line: 0, char: 1 } }));
    assert_eq!(
        forms_of("\"abc"),
        Err(ReadError::Expected {
            outer: Outer::TopLevel,
            expected: Token::StringDelimiter,
            found: None,
        })
    );
    assert_eq!(
        forms_of("[\"abc\" \"d e"),
        Err(ReadError::Expected {
            outer: Outer::InVector,
            expected: Token::StringDelimiter,
            found: None,
        })
    );
    assert_eq!(
        forms_of("{(a"),
        Err(ReadError::Expected { outer: Outer::InList, expected: Token::ListClose, found: None })
    );
}

#[test]
fn stream_stops_after_an_error() {
    let mut stream = read(tokenize(String::from(") a")));
    assert!(stream.next().is_err());
    assert_eq!(stream.next(), Ok(None));
    assert_eq!(stream.collect(), Ok(vec![]));
}

#[test]
fn forms_of_tokens_held_in_memory() {
    let at = TokenInfo { line: 3, char: 7 };
    let tokens = vec![
        (Token::StringDelimiter, at),
        (Token::ListOpen, at),
        (Token::StringDelimiter, at),
        (Token::DispatchPrefixed(String::new()), at),
        (Token::Literal(String::from("#{")), at),
        (Token::DispatchPrefixed(String::from("x[")), at),
        (Token::VectorClose, at),
    ];
    let mut stream = read(TokenList::new(tokens));
    assert_eq!(stream.next(), Ok(Some(Form::StringBody(String::from("(")))));
    assert_eq!(stream.next(), Ok(Some(Form::Dispatch(String::new(), vec![], at))));
    assert_eq!(stream.next(), Ok(Some(Form::Literal(String::from("#{"), at))));
    assert_eq!(stream.next(), Ok(Some(Form::Dispatch(String::from("x["), vec![], at))));
    assert_eq!(stream.next(), Ok(None));
}

#[test]
fn errors_name_the_place_of_the_token() {
    let tokens = vec![
        (Token::MapOpen, TokenInfo { line: 1, char: 1 }),
        (Token::ListClose, TokenInfo { line: 2, char: 9 }),
    ];
    assert_eq!(
        read(TokenList::new(tokens)).collect(),
        Err(ReadError::UnmatchedClosing {
            outer: Outer::InMap,
            closing: Token::ListClose,
            at: TokenInfo { line: 2, char: 9 },
        })
    );
}

#[test]
fn errors_of_the_builder_name_the_place_of_the_form() {
    assert_eq!(
        parse_string(String::from("(a [b #x] #y)")),
        Err(ParseError::UnknownDispatch { prefix: String::from("#x"), at: at(7) })
    );
    assert_eq!(
        parse_string(String::from("(a) {b #(c #d)}")),
        Err(ParseError::UnknownDispatch { prefix: String::from("#("), at: at(8) })
    );
    let lines = vec![String::from("(f 1"), String::from("   [2 #{3 #nope}])")];
    assert_eq!(
        parse_buffer(lines),
        Err(ParseError::UnknownDispatch {
            prefix: String::from("#nope"),
            at: TokenInfo { line: 2, char: 11 },
        })
    );
    let place = TokenInfo { line: 4, char: 2 };
    assert_eq!(
        build(&Form::Vector(vec![lit("a", 1), Form::Literal(String::new(), place)])),
        Err(ParseError::EmptyLiteral { at: place })
    );
}
