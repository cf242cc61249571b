use fancy::parser::reader::{read, Form};
use fancy::parser::tokenizer::{tokenize, tokenize_stream, Token, TokenInfo};
use fancy::parser::{build, parse_buffer, parse_string, Expression, ParseError};

fn tokens(text: &str) -> Vec<Token> {
    tokenize(String::from(text)).collect().into_iter().map(|(token, _)| token).collect()
}

fn forms(text: &str) -> Vec<Form> {
    read(tokenize(String::from(text))).collect().unwrap()
}

/// Whether two texts have the same expressions, or an error each: the
/// places that errors name move with the text.
fn same_outcome(
    a: Result<Vec<Expression>, ParseError>,
    b: Result<Vec<Expression>, ParseError>,
) -> bool {
    match (a, b) {
        (Ok(x), Ok(y)) => x == y,
        (Err(_), Err(_)) => true,
        _ => false,
    }
}

fn depth(form: &Form) -> usize {
    match form {
        Form::Literal(_, _) | Form::StringBody(_) => 0,
        Form::List(inner) | Form::Vector(inner) | Form::Mapping(inner) => 1 + deepest(inner),
        Form::Dispatch(prefix, inner, _) => {
            if prefix.ends_with(['(', '[', '{']) {
                1 + deepest(inner)
            } else {
                0
            }
        }
    }
}

fn deepest(forms: &[Form]) -> usize {
    forms.iter().map(depth).max().unwrap_or(0)
}

fn delimiter_depth(tokens: &[Token]) -> usize {
    let mut level = 0usize;
    let mut peak = 0usize;
    for token in tokens {
        match token {
            Token::ListOpen | Token::VectorOpen | Token::MapOpen => level += 1,
            Token::DispatchPrefixed(text) if text.ends_with(['(', '[', '{']) => level += 1,
            Token::ListClose | Token::VectorClose | Token::MapClose => level -= 1,
            _ => {}
        }
        peak = peak.max(level);
    }
    peak
}

#[test]
fn balanced_delimiters_are_read_to_their_depth() {
    let texts = [
        ("", 0),
        ("a \"b\" #c", 0),
        ("()", 1),
        ("(a) [b] {c}", 1),
        ("(a [b {c #{d}}] e)", 4),
        ("#(#[#{}])", 3),
        ("((((((((((x))))))))))", 10),
        ("(\"(\" \")\")", 1),
    ];
    for (text, expected) in texts {
        let read = forms(text);
        assert_eq!(deepest(&read), expected, "{:?}", text);
        assert_eq!(delimiter_depth(&tokens(text)), expected, "{:?}", text);
    }
}

#[test]
fn the_builder_raises_no_structural_error() {
    for text in ["(a [b {c #{d}}] e)", "#(a)", "(#x)", "[#{1} #[a] \"s\"]"] {
        for form in forms(text) {
            assert!(!matches!(build(&form), Err(ParseError::Read(_))), "{:?}", text);
        }
    }
    let first = TokenInfo { line: 1, char: 1 };
    let second = TokenInfo { line: 1, char: 5 };
    assert_eq!(
        build(&Form::Literal(String::new(), first)),
        Err(ParseError::EmptyLiteral { at: first })
    );
    assert_eq!(
        build(&Form::Dispatch(
            String::from("#("),
            vec![Form::Literal(String::new(), second)],
            first
        )),
        Err(ParseError::UnknownDispatch { prefix: String::from("#("), at: first })
    );
    assert_eq!(
        build(&Form::List(vec![
            Form::Literal(String::new(), first),
            Form::Dispatch(String::from("#x"), vec![], second),
        ])),
        Err(ParseError::EmptyLiteral { at: first })
    );
}

#[test]
fn separators_between_tokens_change_nothing() {
    let pairs = [
        ("(+ 1 2)", " ( ,+,, 1\t\n2 ) ,"),
        ("[a\"b\"c]", "[ a \"b\" c ]"),
        ("#{1}#[a]", "#{ 1 }\u{2003}#[ a ]"),
        ("(a;c\nb)", "( a ;c\n b )"),
        ("x#(y)", "x #( y )"),
        ("\"a b\"\"\"", " \"a b\" \"\" "),
        ("( #!x", "(  , #!x"),
        ("x ;c\ny", " x , ;c\n \n y "),
        ("x;c", "x;c\n "),
        ("#!s\n(a)", "#!s\n\n ( a )"),
    ];
    for (tight, loose) in pairs {
        assert_eq!(tokens(tight), tokens(loose), "{:?}", tight);
        assert!(
            same_outcome(parse_string(String::from(tight)), parse_string(String::from(loose))),
            "{:?}",
            tight
        );
    }
}

#[test]
fn a_separator_before_a_shebang_word_makes_a_comment() {
    assert_eq!(tokens("(#!x"), vec![Token::ListOpen, Token::DispatchPrefixed(String::from("#!x"))]);
    assert_eq!(tokens("( #!x"), vec![Token::ListOpen]);
}

#[test]
fn a_line_break_inside_a_comment_ends_it() {
    assert_eq!(tokens("a ;b c"), tokens("a ;b  ,c"));
    assert_ne!(tokens("a ;b c"), tokens("a ;b\nc"));
    assert_eq!(tokens("a ;b\nc"), tokens("a ;( \" #{\nc"));
}

#[test]
fn separators_inside_a_string_are_kept() {
    assert_ne!(tokens("\"ab\""), tokens("\"a b\""));
    assert_ne!(tokens("\"ab\""), tokens("\"ab;c\""));
}

#[test]
fn a_comment_at_the_end_of_a_line_changes_nothing() {
    let pairs = [
        ("(+ 1\n 2)", "(+ 1; one\n 2); two"),
        ("a\n\nb", "a;\n;;; x ( \" [\nb;"),
        ("abc", "abc;def"),
        ("#\n(", "#;\n(;"),
        ("\"s\"\n1", "\"s\";\"\n1"),
        ("; x\ny", "; x; z\ny"),
    ];
    for (plain, commented) in pairs {
        assert_eq!(tokens(plain), tokens(commented), "{:?}", plain);
        assert!(
            same_outcome(parse_string(String::from(plain)), parse_string(String::from(commented))),
            "{:?}",
            plain
        );
    }
    let plain: Vec<String> = vec![String::from("(f x"), String::from("y)")];
    let commented: Vec<String> = vec![String::from("(f x ; first"), String::from("y) ; second")];
    let a: Vec<Token> =
        tokenize_stream(plain.clone()).collect().into_iter().map(|(token, _)| token).collect();
    let b: Vec<Token> =
        tokenize_stream(commented.clone()).collect().into_iter().map(|(token, _)| token).collect();
    assert_eq!(a, b);
    assert_eq!(parse_buffer(plain), parse_buffer(commented));
}

#[test]
fn string_bodies_come_out_unmodified() {
    let bodies = ["a", " ", "  a  b  ", "line\nbreak\r\n", ";;12", "( [ { } ] )", "#{x}", ",,,", "\t"];
    for body in bodies {
        let text = format!("\"{}\"", body);
        assert_eq!(
            tokens(&text),
            vec![Token::StringDelimiter, Token::Literal(String::from(body)), Token::StringDelimiter],
            "{:?}",
            body
        );
        assert_eq!(forms(&text), vec![Form::StringBody(String::from(body))]);
    }
    assert_eq!(tokens("\"\""), vec![Token::StringDelimiter, Token::StringDelimiter]);
}
