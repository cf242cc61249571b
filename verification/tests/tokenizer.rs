use fancy::parser::tokenizer::{tokenize, Token, TokenInfo};

fn token_vector(text: &'static str) -> Vec<String> {
    let mut stream = tokenize(String::from(text));
    stream.collect().iter().map(|(token, _)| token.text()).collect()
}

#[test]
fn simple_forms() {
    assert_eq!(vec!("(", "1", "2", "3", ")"), token_vector("(1 2 3)"));
    assert_eq!(vec!("[", "1", "2", "3", "]"), token_vector("[1 2 3]"));
    assert_eq!(vec!("{", "1", "2", "3", "}"), token_vector("{1 2 3}"));
}

#[test]
fn ignore_whitespace() {
    assert_eq!(vec!("(", "1", "2", "3", ")"), token_vector("(1,,, 2    3)"));
}

#[test]
fn parse_strings() {
    assert_eq!(
        vec!("\"", "multi word string { }", "\""),
        token_vector("\"multi word string { }\"")
    );
    assert_eq!(
        vec!("\"", "with line-breaks\n Second\r\nThird", "\""),
        token_vector("\"with line-breaks\n Second\r\nThird\"")
    );
}

#[test]
fn multi_forms() {
    assert_eq!(
        vec!("(", "1", ")", "[", "2", "]", "12", "\"", ";;12", "\"", "{"),
        token_vector("(1) [2] 12   \";;12\" {")
    );
    assert_eq!(
        vec!("\"", "str 1", "\"", "\"", "str 2", "\""),
        token_vector("\"str 1\" \"str 2\" ")
    );
}

#[test]
fn dispatch() {
    assert_eq!(vec!("#(", "1", "2", "3", ")"), token_vector("#(1,,, 2    3)"));
    assert_eq!(vec!("#{", "1", "2", "3", "}"), token_vector("#{1 2 3}"));
    assert_eq!(vec!("#custom"), token_vector("#custom"));
    assert_eq!(vec!("#custom", "(", "1", "2", "3", ")"), token_vector("#custom(1 2 3)"));
    assert_eq!(vec!("#custom", "symbol"), token_vector("#custom symbol"));
    assert_eq!(vec!("(", "symbol", "{"), token_vector("(symbol{"));
    assert_eq!(vec!("symbol", "("), token_vector("symbol("));
    assert_eq!(vec!("symbol", "["), token_vector("symbol["));
    assert_eq!(vec!("#symbol", "{"), token_vector("#symbol{"));
    assert_eq!(vec!("#{", "a"), token_vector("#{a"));
    assert_eq!(vec!("#(", "a"), token_vector("#(a"));
    assert_eq!(vec!("#[", "a"), token_vector("#[a"));
}

#[test]
fn comment() {
    assert_eq!(vec!("[", "[", "]", "]"), token_vector("[[]] ;; comment here"));
    assert_eq!(
        vec!("\"", "with ;; in string too", "\""),
        token_vector("\"with ;; in string too\"")
    );
}

#[test]
fn token_kinds() {
    let mut stream = tokenize(String::from("(a #b #{ \"c d\" } ]"));
    let tokens: Vec<Token> = stream.collect().into_iter().map(|(token, _)| token).collect();
    assert_eq!(
        tokens,
        vec![
            Token::ListOpen,
            Token::Literal(String::from("a")),
            Token::DispatchPrefixed(String::from("#b")),
            Token::DispatchPrefixed(String::from("#{")),
            Token::StringDelimiter,
            Token::Literal(String::from("c d")),
            Token::StringDelimiter,
            Token::MapClose,
            Token::VectorClose,
        ]
    );
}

#[test]
fn token_places_in_a_string() {
    let mut stream = tokenize(String::from("  (ab \"x\""));
    let places: Vec<TokenInfo> = stream.collect().into_iter().map(|(_, info)| info).collect();
    assert_eq!(
        places,
        vec![
            TokenInfo { line: 0, char: 3 },
            TokenInfo { line: 0, char: 4 },
            TokenInfo { line: 0, char: 7 },
            TokenInfo { line: 0, char: 8 },
            TokenInfo { line: 0, char: 9 },
        ]
    );
}

#[test]
fn next_yields_tokens_one_by_one() {
    let mut stream = tokenize(String::from("a )"));
    assert_eq!(stream.next().map(|p| p.0), Some(Token::Literal(String::from("a"))));
    assert_eq!(stream.next().map(|p| p.0), Some(Token::ListClose));
    assert_eq!(stream.next(), None);
    assert_eq!(stream.next(), None);
}

#[test]
fn shebang_line_is_a_comment_only_after_a_separator_or_at_the_start() {
    assert_eq!(vec!("a"), token_vector("#!/usr/bin/fancy\na"));
    assert_eq!(vec!("a", "b"), token_vector("a #!rest\nb"));
    assert_eq!(vec!("(", "#!x"), token_vector("(#!x"));
    assert_eq!(vec!("a#!x"), token_vector("a#!x"));
}

#[test]
fn word_ends_before_comment_and_fused_dispatch() {
    assert_eq!(vec!("abc"), token_vector("abc;def"));
    assert_eq!(vec!("ab", "#(", "c", ")"), token_vector("ab#(c)"));
    assert_eq!(vec!("a#b"), token_vector("a#b"));
    assert_eq!(vec!("a", "\"", "b", "\""), token_vector("a\"b\""));
}

#[test]
fn empty_and_open_strings() {
    assert_eq!(vec!("\"", "\""), token_vector("\"\""));
    assert_eq!(vec!("\"", "abc"), token_vector("\"abc"));
    assert_eq!(vec!("\""), token_vector("\""));
}

#[test]
fn blank_input_has_no_tokens() {
    assert_eq!(Vec::<String>::new(), token_vector(""));
    assert_eq!(Vec::<String>::new(), token_vector(" ,\t\n ; only a comment"));
}
