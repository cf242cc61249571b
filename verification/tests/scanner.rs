use fancy::parser::chars::{closes_group, is_decimal_digit, is_whitespace, opens_group};
use fancy::parser::scanner::{LineScanner, Scanner, StringScanner};
use fancy::parser::tokenizer::{tokenize, tokenize_stream, TokenInfo};
use fancy::parser::{parse_buffer, parse_string};

/// The lines of the source files that the tests read.
fn resource(path: &str) -> Vec<String> {
    let lines: Vec<&str> = match path {
        "resources/tokenizer/simple.fc" => vec!["(test 1 2 3)"],
        "resources/tokenizer/multiline.fc" => vec!["(test", "  1", "", "  2,", "  3)"],
        "resources/tokenizer/withcomments.fc" => vec![
            "#!/usr/bin/env fancy",
            "; adds one to its argument",
            "(defn test [a] ;; the parameters",
            "  (+ 1 a)) ; the end",
        ],
        _ => panic!("no such resource: {}", path),
    };
    lines.into_iter().map(String::from).collect()
}

fn tokens_from_file(path: &'static str) -> Vec<String> {
    let mut stream = tokenize_stream(resource(path));
    stream.collect().iter().map(|(token, _)| token.text()).collect()
}

fn lines(text: &[&str]) -> Vec<String> {
    text.iter().map(|line| String::from(*line)).collect()
}

#[test]
fn read_file() {
    assert_eq!(
        vec!("(", "test", "1", "2", "3", ")"),
        tokens_from_file("resources/tokenizer/simple.fc")
    );

    assert_eq!(
        vec!("(", "test", "1", "2", "3", ")"),
        tokens_from_file("resources/tokenizer/multiline.fc")
    );

    assert_eq!(
        vec!("(", "defn", "test", "[", "a", "]", "(", "+", "1", "a", ")", ")"),
        tokens_from_file("resources/tokenizer/withcomments.fc")
    );
}

#[test]
fn whitespace_is_unicode_whitespace_or_comma() {
    for code in 0..=0x10FFFFu32 {
        if let Some(c) = char::from_u32(code) {
            assert_eq!(is_whitespace(c), c.is_whitespace() || c == ',', "U+{:04X}", code);
        }
    }
}

#[test]
fn delimiters_and_digits() {
    for c in ['(', '[', '{'] {
        assert!(opens_group(c) && !closes_group(c));
    }
    for c in [')', ']', '}'] {
        assert!(closes_group(c) && !opens_group(c));
    }
    assert!(!opens_group('<') && !closes_group('>') && !opens_group('"'));
    for c in '0'..='9' {
        assert!(is_decimal_digit(c));
    }
    assert!(!is_decimal_digit('/') && !is_decimal_digit(':') && !is_decimal_digit('\u{0663}'));
}

#[test]
fn string_scanner_moves_over_the_text() {
    let mut scanner = StringScanner::new(&String::from("ab\ncd"));
    assert_eq!(scanner.previous_char(), None);
    assert_eq!(scanner.current_char(), Some('a'));
    assert_eq!(scanner.next_char(), Some('b'));
    assert_eq!(scanner.position(), (0, 1));
    scanner.pop();
    assert_eq!(scanner.previous_char(), Some('a'));
    assert_eq!(scanner.current_char(), Some('b'));
    assert_eq!(scanner.next_char(), Some('\n'));
    scanner.flush_line();
    assert_eq!(scanner.previous_char(), Some('\n'));
    assert_eq!(scanner.current_char(), Some('c'));
    assert_eq!(scanner.position(), (0, 4));
    scanner.pop();
    assert_eq!(scanner.next_char(), None);
    scanner.pop();
    assert_eq!(scanner.current_char(), None);
    assert_eq!(scanner.previous_char(), Some('d'));
    assert_eq!(scanner.position(), (0, 6));
    scanner.pop();
    scanner.flush_line();
    assert_eq!(scanner.current_char(), None);
    assert_eq!(scanner.position(), (0, 6));
}

#[test]
fn flush_line_without_a_line_break_goes_to_the_end() {
    let mut scanner = StringScanner::new(&String::from("abc"));
    scanner.flush_line();
    assert_eq!(scanner.current_char(), None);
    assert_eq!(scanner.previous_char(), Some('c'));
}

#[test]
fn line_scanner_puts_a_line_break_behind_each_line() {
    let mut scanner = LineScanner::from_buffer(lines(&["ab", "", "c"]));
    let mut text = String::new();
    while let Some(c) = scanner.current_char() {
        text.push(c);
        scanner.pop();
    }
    assert_eq!(text, "ab\n\nc\n");
    assert_eq!(scanner.next_char(), None);
    assert_eq!(scanner.previous_char(), Some('\n'));
    scanner.pop();
    assert_eq!(scanner.current_char(), None);
}

#[test]
fn line_scanner_moves_over_the_lines() {
    let mut scanner = LineScanner::from_buffer(lines(&["ab", "cd"]));
    assert_eq!(scanner.previous_char(), None);
    assert_eq!(scanner.current_char(), Some('a'));
    assert_eq!(scanner.next_char(), Some('b'));
    assert_eq!(scanner.position(), (1, 1));
    scanner.pop();
    assert_eq!(scanner.position(), (1, 2));
    assert_eq!(scanner.next_char(), Some('\n'));
    scanner.pop();
    assert_eq!(scanner.current_char(), Some('\n'));
    assert_eq!(scanner.next_char(), Some('c'));
    assert_eq!(scanner.position(), (1, 3));
    scanner.pop();
    assert_eq!(scanner.previous_char(), Some('\n'));
    assert_eq!(scanner.current_char(), Some('c'));
    assert_eq!(scanner.position(), (2, 1));
    scanner.flush_line();
    assert_eq!(scanner.current_char(), None);
    assert_eq!(scanner.position(), (3, 1));
    scanner.flush_line();
    assert_eq!(scanner.position(), (3, 1));
}

#[test]
fn line_scanner_flushes_lines() {
    let mut scanner = LineScanner::from_buffer(lines(&["ab", "cd", "e"]));
    scanner.pop();
    scanner.flush_line();
    assert_eq!(scanner.current_char(), Some('c'));
    assert_eq!(scanner.previous_char(), Some('\n'));
    scanner.pop();
    scanner.pop();
    scanner.flush_line();
    assert_eq!(scanner.current_char(), Some('e'));
}

#[test]
fn line_breaks_inside_a_line_begin_new_lines() {
    let mut scanner = LineScanner::from_buffer(lines(&["a\nb ; c\nd"]));
    scanner.flush_line();
    assert_eq!(scanner.current_char(), Some('b'));
    assert_eq!(scanner.position(), (2, 1));
    scanner.flush_line();
    assert_eq!(scanner.current_char(), Some('d'));
    assert_eq!(scanner.position(), (3, 1));
}

#[test]
fn an_empty_buffer_has_no_characters() {
    let scanner = LineScanner::from_buffer(Vec::new());
    assert_eq!(scanner.current_char(), None);
    assert_eq!(scanner.next_char(), None);
    assert_eq!(scanner.previous_char(), None);
    assert_eq!(scanner.position(), (1, 1));
}

#[test]
fn token_places_in_lines() {
    let mut stream = tokenize_stream(lines(&["(a", "  \"b c\" ; x", "d)"]));
    let places: Vec<TokenInfo> = stream.collect().into_iter().map(|(_, info)| info).collect();
    assert_eq!(
        places,
        vec![
            TokenInfo { line: 1, char: 1 },
            TokenInfo { line: 1, char: 2 },
            TokenInfo { line: 2, char: 3 },
            TokenInfo { line: 2, char: 4 },
            TokenInfo { line: 2, char: 7 },
            TokenInfo { line: 3, char: 1 },
            TokenInfo { line: 3, char: 2 },
        ]
    );
}

#[test]
fn both_scanners_give_the_same_tokens() {
    let text = "(defn f [a] ; add\n  (+ a 1))\n\"two\nlines\" #{x}\n";
    let mut by_string = tokenize(String::from(text));
    let mut by_lines = tokenize_stream(lines(&["(defn f [a] ; add", "  (+ a 1))", "\"two", "lines\" #{x}"]));
    let a: Vec<String> = by_string.collect().iter().map(|(token, _)| token.text()).collect();
    let b: Vec<String> = by_lines.collect().iter().map(|(token, _)| token.text()).collect();
    assert_eq!(a, b);
    assert_eq!(a.len(), 18);
}

#[test]
fn parse_buffer_reads_lines() {
    assert_eq!(
        parse_buffer(lines(&["(test ;; comment", " 1)"])),
        parse_string(String::from("(test 1)"))
    );
    assert!(parse_buffer(lines(&["(1"])).is_err());
    assert_eq!(parse_buffer(Vec::new()), Ok(vec![]));
}

#[test]
fn read_char_by_line_and_column() {
    let scanner = LineScanner::from_buffer(lines(&["ab", "", "c"]));
    assert_eq!(scanner.read_char((0, 0)), Some('a'));
    assert_eq!(scanner.read_char((0, 1)), Some('b'));
    assert_eq!(scanner.read_char((0, 2)), Some('\n'));
    assert_eq!(scanner.read_char((0, 9)), Some('\n'));
    assert_eq!(scanner.read_char((1, 0)), Some('\n'));
    assert_eq!(scanner.read_char((2, 0)), Some('c'));
    assert_eq!(scanner.read_char((2, 1)), Some('\n'));
    assert_eq!(scanner.read_char((3, 0)), None);
    assert_eq!(scanner.read_char((3, 1)), None);
    assert_eq!(scanner.read_char((4, 0)), None);
    assert_eq!(scanner.read_char((usize::MAX, usize::MAX)), None);
    let empty = LineScanner::from_buffer(Vec::new());
    assert_eq!(empty.read_char((0, 0)), None);
    assert_eq!(empty.read_char((1, 0)), None);
}
