//! From characters to tokens.
//!
//! The tokenizer is specified as a function of the flat text alone: `step`
//! says which token starts at or after an offset and where the next one is
//! to be looked for, `lex` repeats it to the end of the text. A
//! `TokenStream` produces the tokens of `lex` one by one.

use vstd::prelude::*;
use crate::parser::chars::{
    closes_group, is_delimiter, is_opener, is_separator, is_whitespace, opens_group,
};
use crate::parser::scanner::{
    char_at, joined_lines, next_line_start, string_views, LineScanner, Scanner, StringScanner,
};

verus! {

/// A token. Only a dispatch token and a literal carry text.
#[derive(Debug, PartialEq, Eq)]
pub enum Token {
    ListOpen,
    ListClose,
    VectorOpen,
    VectorClose,
    MapOpen,
    MapClose,
    StringDelimiter,
    /// `#` fused with the opening delimiter that follows it, or a bare word
    /// that begins with `#`.
    DispatchPrefixed(String),
    /// A run of characters between delimiters, or the body of a string.
    Literal(String),
}

/// What a `Token` stands for in contracts: the same cases over sequences of
/// characters.
pub enum SpecToken {
    ListOpen,
    ListClose,
    VectorOpen,
    VectorClose,
    MapOpen,
    MapClose,
    StringDelimiter,
    DispatchPrefixed(Seq<char>),
    Literal(Seq<char>),
}

impl SpecToken {
    /// The characters that the token was read from.
    pub open spec fn text(self) -> Seq<char> {
        match self {
            SpecToken::ListOpen => seq!['('],
            SpecToken::ListClose => seq![')'],
            SpecToken::VectorOpen => seq!['['],
            SpecToken::VectorClose => seq![']'],
            SpecToken::MapOpen => seq!['{'],
            SpecToken::MapClose => seq!['}'],
            SpecToken::StringDelimiter => seq!['"'],
            SpecToken::DispatchPrefixed(t) => t,
            SpecToken::Literal(t) => t,
        }
    }

    /// Whether the token closes a group.
    pub open spec fn is_closer(self) -> bool {
        self is ListClose || self is VectorClose || self is MapClose
    }
}

impl View for Token {
    type V = SpecToken;

    open spec fn view(&self) -> SpecToken {
        match self {
            Token::ListOpen => SpecToken::ListOpen,
            Token::ListClose => SpecToken::ListClose,
            Token::VectorOpen => SpecToken::VectorOpen,
            Token::VectorClose => SpecToken::VectorClose,
            Token::MapOpen => SpecToken::MapOpen,
            Token::MapClose => SpecToken::MapClose,
            Token::StringDelimiter => SpecToken::StringDelimiter,
            Token::DispatchPrefixed(t) => SpecToken::DispatchPrefixed(t@),
            Token::Literal(t) => SpecToken::Literal(t@),
        }
    }
}

/// A string of one character.
fn single(c: char) -> (s: String)
    ensures
        s@ == seq![c],
{
    let mut s = String::new();
    s.push(c);
    assert(s@ =~= seq![c]);
    s
}

impl Clone for Token {
    fn clone(&self) -> (r: Token)
        ensures
            r@ == self@,
    {
        match self {
            Token::ListOpen => Token::ListOpen,
            Token::ListClose => Token::ListClose,
            Token::VectorOpen => Token::VectorOpen,
            Token::VectorClose => Token::VectorClose,
            Token::MapOpen => Token::MapOpen,
            Token::MapClose => Token::MapClose,
            Token::StringDelimiter => Token::StringDelimiter,
            Token::DispatchPrefixed(t) => Token::DispatchPrefixed(t.clone()),
            Token::Literal(t) => Token::Literal(t.clone()),
        }
    }
}

impl Token {
    /// Whether the token closes a group.
    pub fn is_closer(&self) -> (r: bool)
        ensures
            r == self@.is_closer(),
    {
        match self {
            Token::ListClose => true,
            Token::VectorClose => true,
            Token::MapClose => true,
            _ => false,
        }
    }

    /// Whether the two tokens are the same case with the same text.
    pub fn same(&self, other: &Token) -> (r: bool)
        ensures
            r == (self@ == other@),
    {
        match (self, other) {
            (Token::ListOpen, Token::ListOpen) => true,
            (Token::ListClose, Token::ListClose) => true,
            (Token::VectorOpen, Token::VectorOpen) => true,
            (Token::VectorClose, Token::VectorClose) => true,
            (Token::MapOpen, Token::MapOpen) => true,
            (Token::MapClose, Token::MapClose) => true,
            (Token::StringDelimiter, Token::StringDelimiter) => true,
            (Token::DispatchPrefixed(a), Token::DispatchPrefixed(b)) => *a == *b,
            (Token::Literal(a), Token::Literal(b)) => *a == *b,
            _ => false,
        }
    }

    /// The characters that the token was read from.
    pub fn text(&self) -> (s: String)
        ensures
            s@ == self@.text(),
    {
        match self {
            Token::ListOpen => single('('),
            Token::ListClose => single(')'),
            Token::VectorOpen => single('['),
            Token::VectorClose => single(']'),
            Token::MapOpen => single('{'),
            Token::MapClose => single('}'),
            Token::StringDelimiter => single('"'),
            Token::DispatchPrefixed(t) => t.clone(),
            Token::Literal(t) => t.clone(),
        }
    }
}

/// Where a token begins, as its scanner counts lines and columns.
#[derive(Clone, Copy, Debug, PartialEq, Eq)]
pub struct TokenInfo {
    pub line: usize,
    pub char: usize,
}

impl TokenInfo {
    /// The place `pos`, given as line and column.
    pub open spec fn at(pos: (usize, usize)) -> TokenInfo {
        TokenInfo { line: pos.0, char: pos.1 }
    }

    /// The place `pos`, given as line and column.
    pub fn new(pos: (usize, usize)) -> (info: TokenInfo)
        ensures
            info == TokenInfo::at(pos),
    {
        TokenInfo { line: pos.0, char: pos.1 }
    }
}

/// Whether a comment begins at index `i`: a `;`, or `#!` at the start of the
/// text or after a separator.
pub open spec fn starts_comment(s: Seq<char>, i: int) -> bool {
    s[i] == ';' || (s[i] == '#' && char_at(s, i + 1) == Some('!') && (i == 0 || is_separator(
        s[i - 1],
    )))
}

/// Whether `#` stands at index `i` directly before an opening delimiter.
pub open spec fn is_fused_dispatch(s: Seq<char>, i: int) -> bool {
    s[i] == '#' && i + 1 < s.len() && is_opener(s[i + 1])
}

/// Whether the character at index `i` cannot continue a word.
pub open spec fn ends_word(s: Seq<char>, i: int) -> bool {
    is_separator(s[i]) || is_delimiter(s[i]) || s[i] == '"' || s[i] == ';' || is_fused_dispatch(
        s,
        i,
    )
}

/// The first index at or after `i` that is neither a separator nor inside a
/// comment, or the end of the text.
pub open spec fn skip_blank(s: Seq<char>, i: int) -> int
    decreases s.len() - i,
{
    if i < 0 || i >= s.len() {
        i
    } else if is_separator(s[i]) {
        skip_blank(s, i + 1)
    } else if starts_comment(s, i) {
        proof {
            lemma_next_line_start_bounds(s, i);
        }
        skip_blank(s, next_line_start(s, i))
    } else {
        i
    }
}

/// The first index at or after `i` at which a word ends, or the end of the
/// text.
pub open spec fn word_end(s: Seq<char>, i: int) -> int
    decreases s.len() - i,
{
    if i < 0 || i >= s.len() {
        i
    } else if ends_word(s, i) {
        i
    } else {
        word_end(s, i + 1)
    }
}

/// The index of the first `"` at or after `i`, or the end of the text.
pub open spec fn string_end(s: Seq<char>, i: int) -> int
    decreases s.len() - i,
{
    if i < 0 || i >= s.len() {
        i
    } else if s[i] == '"' {
        i
    } else {
        string_end(s, i + 1)
    }
}

/// The token of a structural delimiter.
pub open spec fn delimiter_token(c: char) -> SpecToken {
    if c == '(' {
        SpecToken::ListOpen
    } else if c == ')' {
        SpecToken::ListClose
    } else if c == '[' {
        SpecToken::VectorOpen
    } else if c == ']' {
        SpecToken::VectorClose
    } else if c == '{' {
        SpecToken::MapOpen
    } else {
        SpecToken::MapClose
    }
}

/// The token of a word: a dispatch token when it begins with `#`, else a
/// literal.
pub open spec fn word_token(word: Seq<char>) -> SpecToken {
    if word.len() > 0 && word[0] == '#' {
        SpecToken::DispatchPrefixed(word)
    } else {
        SpecToken::Literal(word)
    }
}

/// One token and what producing it does to the tokenizer.
pub struct Step {
    pub token: SpecToken,
    /// The index of the token's first character.
    pub start: int,
    /// The index at which the search for the next token begins.
    pub end: int,
    /// Whether that search begins inside a string.
    pub in_string: bool,
}

/// The next token of `s` when all before index `i` has been consumed, or
/// `None` when no token is left.
///
/// Inside a string everything up to the next quote is one literal, then the
/// quote is a token of its own. Outside, separators and comments are skipped;
/// a quote or a delimiter is a token; `#` is fused with an opening delimiter
/// directly behind it; anything else begins a word.
pub open spec fn step(s: Seq<char>, i: int, in_string: bool) -> Option<Step> {
    if in_string {
        if i < 0 || i >= s.len() {
            None
        } else if s[i] == '"' {
            Some(Step { token: SpecToken::StringDelimiter, start: i, end: i + 1, in_string: false })
        } else {
            let j = string_end(s, i);
            Some(
                Step {
                    token: SpecToken::Literal(s.subrange(i, j)),
                    start: i,
                    end: j,
                    in_string: true,
                },
            )
        }
    } else {
        let j = skip_blank(s, i);
        if j < 0 || j >= s.len() {
            None
        } else if s[j] == '"' {
            Some(Step { token: SpecToken::StringDelimiter, start: j, end: j + 1, in_string: true })
        } else if is_delimiter(s[j]) {
            Some(Step { token: delimiter_token(s[j]), start: j, end: j + 1, in_string: false })
        } else if is_fused_dispatch(s, j) {
            Some(
                Step {
                    token: SpecToken::DispatchPrefixed(s.subrange(j, j + 2)),
                    start: j,
                    end: j + 2,
                    in_string: false,
                },
            )
        } else {
            let k = word_end(s, j + 1);
            Some(Step { token: word_token(s.subrange(j, k)), start: j, end: k, in_string: false })
        }
    }
}

/// The tokens of `s` from index `i` on, each with the index of its first
/// character.
pub open spec fn lex(s: Seq<char>, i: int, in_string: bool) -> Seq<(SpecToken, int)>
    decreases s.len() - i,
{
    if i < 0 {
        Seq::empty()
    } else {
        match step(s, i, in_string) {
            None => Seq::empty(),
            Some(st) => {
                proof {
                    lemma_step_bounds(s, i, in_string);
                }
                seq![(st.token, st.start)] + lex(s, st.end, st.in_string)
            },
        }
    }
}

/// The tokens of `s` from index `i` on, without the places.
pub open spec fn tokens_from(s: Seq<char>, i: int, in_string: bool) -> Seq<SpecToken> {
    lex(s, i, in_string).map_values(|l: (SpecToken, int)| l.0)
}

/// The tokens of a whole text.
pub open spec fn tokens_of(s: Seq<char>) -> Seq<SpecToken> {
    tokens_from(s, 0, false)
}

/// Tokens with the places that a scanner of type `S` reports for the
/// offsets at which they begin in `text`.
pub open spec fn locate<S: Scanner>(text: Seq<char>, lexemes: Seq<(SpecToken, int)>) -> Seq<
    (SpecToken, TokenInfo),
> {
    lexemes.map_values(|l: (SpecToken, int)| (l.0, TokenInfo::at(S::place(text, l.1))))
}

/// The tokens of a whole text with the places that a scanner of type `S`
/// reports for them.
pub open spec fn located_tokens<S: Scanner>(text: Seq<char>) -> Seq<(SpecToken, TokenInfo)> {
    locate::<S>(text, lex(text, 0, false))
}

/// A line ends after the index its search began at, and inside the text.
pub proof fn lemma_next_line_start_bounds(s: Seq<char>, i: int)
    requires
        0 <= i < s.len(),
    ensures
        i < next_line_start(s, i) <= s.len(),
    decreases s.len() - i,
{
    if s[i] != '\n' {
        if i + 1 < s.len() {
            lemma_next_line_start_bounds(s, i + 1);
        } else {
            assert(next_line_start(s, i + 1) == s.len());
        }
    }
}

/// Skipping blanks moves forward and stays inside the text; where it stops
/// inside the text, a token begins.
pub proof fn lemma_skip_blank_bounds(s: Seq<char>, i: int)
    requires
        0 <= i <= s.len(),
    ensures
        i <= skip_blank(s, i) <= s.len(),
        skip_blank(s, i) < s.len() ==> !is_separator(s[skip_blank(s, i)]) && !starts_comment(
            s,
            skip_blank(s, i),
        ),
    decreases s.len() - i,
{
    if i < s.len() {
        if is_separator(s[i]) {
            lemma_skip_blank_bounds(s, i + 1);
        } else if starts_comment(s, i) {
            lemma_next_line_start_bounds(s, i);
            lemma_skip_blank_bounds(s, next_line_start(s, i));
        }
    }
}

/// A word ends at or after the index its search began at, and inside the
/// text.
pub proof fn lemma_word_end_bounds(s: Seq<char>, i: int)
    requires
        0 <= i <= s.len(),
    ensures
        i <= word_end(s, i) <= s.len(),
    decreases s.len() - i,
{
    if i < s.len() && !ends_word(s, i) {
        lemma_word_end_bounds(s, i + 1);
    }
}

/// A string body ends at or after the index its search began at, and inside
/// the text.
pub proof fn lemma_string_end_bounds(s: Seq<char>, i: int)
    requires
        0 <= i <= s.len(),
    ensures
        i <= string_end(s, i) <= s.len(),
    decreases s.len() - i,
{
    if i < s.len() && s[i] != '"' {
        lemma_string_end_bounds(s, i + 1);
    }
}

/// Every step consumes at least one character and stays inside the text.
pub proof fn lemma_step_bounds(s: Seq<char>, i: int, in_string: bool)
    requires
        0 <= i,
    ensures
        step(s, i, in_string) matches Some(st) ==> i <= st.start < st.end <= s.len(),
{
    if in_string {
        if i < s.len() && s[i] != '"' {
            lemma_string_end_bounds(s, i + 1);
        }
    } else if i <= s.len() {
        lemma_skip_blank_bounds(s, i);
        let j = skip_blank(s, i);
        if j < s.len() {
            lemma_word_end_bounds(s, j + 1);
        }
    }
}

/// A forward-only source of tokens: what the reader reads from.
pub trait TokenSource: Sized {
    /// The invariant of the implementation.
    spec fn source_wf(&self) -> bool;

    /// The tokens still to come, each with its place.
    spec fn upcoming(&self) -> Seq<(SpecToken, TokenInfo)>;

    /// Produces the next token with its place, or `None` when none is left.
    fn next_token(&mut self) -> (r: Option<(Token, TokenInfo)>)
        requires
            old(self).source_wf(),
        ensures
            final(self).source_wf(),
            r is None <==> old(self).upcoming().len() == 0,
            r is None ==> final(self).upcoming() == old(self).upcoming(),
            r matches Some(p) ==> (p.0@, p.1) == old(self).upcoming()[0] && final(self).upcoming()
                == old(self).upcoming().skip(1),
    ;
}

/// Tokens that are held in memory, as a source.
pub struct TokenList {
    tokens: Vec<(Token, TokenInfo)>,
    index: usize,
}

impl TokenList {
    /// A source that yields `tokens` in order.
    pub fn new(tokens: Vec<(Token, TokenInfo)>) -> (list: TokenList)
        ensures
            list.source_wf(),
            list.upcoming() == view_tokens(tokens@),
    {
        let list = TokenList { tokens, index: 0 };
        assert(list.upcoming() =~= view_tokens(tokens@));
        list
    }
}

/// What a sequence of tokens with their places stands for.
pub open spec fn view_tokens(tokens: Seq<(Token, TokenInfo)>) -> Seq<(SpecToken, TokenInfo)> {
    Seq::new(tokens.len(), |i: int| (tokens[i].0@, tokens[i].1))
}

impl TokenSource for TokenList {
    closed spec fn source_wf(&self) -> bool {
        self.index <= self.tokens.len()
    }

    closed spec fn upcoming(&self) -> Seq<(SpecToken, TokenInfo)> {
        view_tokens(self.tokens@).skip(self.index as int)
    }

    fn next_token(&mut self) -> (r: Option<(Token, TokenInfo)>) {
        if self.index < self.tokens.len() {
            let token = self.tokens[self.index].0.clone();
            let info = self.tokens[self.index].1;
            self.index = self.index + 1;
            assert(self.upcoming() =~= old(self).upcoming().skip(1));
            Some((token, info))
        } else {
            None
        }
    }
}

/// A lazy, forward-only sequence of tokens over a scanner.
pub struct TokenStream<S: Scanner> {
    scanner: S,
    stringing: bool,
}

impl<S: Scanner> TokenStream<S> {
    /// The invariant: that of the scanner.
    pub closed spec fn wf(&self) -> bool {
        self.scanner.wf()
    }

    /// The text of the scanner.
    pub closed spec fn text(&self) -> Seq<char> {
        self.scanner.text()
    }

    /// The offset of the scanner.
    pub closed spec fn offset(&self) -> int {
        self.scanner.offset()
    }

    /// Whether the last token opened a string that is not closed yet.
    pub closed spec fn in_string(&self) -> bool {
        self.stringing
    }

    /// The place that the scanner reports for `offset`.
    pub open spec fn info_at(&self, offset: int) -> TokenInfo {
        TokenInfo::at(S::place(self.text(), offset))
    }

    /// The tokens still to come, each with its place.
    pub open spec fn remaining(&self) -> Seq<(SpecToken, TokenInfo)> {
        locate::<S>(self.text(), lex(self.text(), self.offset(), self.in_string()))
    }

    /// A stream that starts where `scanner` stands, outside any string.
    pub fn new(scanner: S) -> (ts: TokenStream<S>)
        requires
            scanner.wf(),
        ensures
            ts.wf(),
            ts.text() == scanner.text(),
            ts.offset() == scanner.offset(),
            !ts.in_string(),
    {
        TokenStream { scanner, stringing: false }
    }

    /// The offset lies inside the text.
    pub proof fn offset_in_text(&self)
        requires
            self.wf(),
        ensures
            0 <= self.offset() <= self.text().len(),
    {
        self.scanner.offset_in_text();
    }

    /// Relates the tokens to come before and after one step.
    proof fn lemma_remaining_step(&self, next: &Self, st: Step)
        requires
            0 <= self.offset(),
            step(self.text(), self.offset(), self.in_string()) == Some(st),
            next.text() == self.text(),
            next.offset() == st.end,
            next.in_string() == st.in_string,
        ensures
            self.remaining().len() > 0,
            self.remaining()[0] == (st.token, self.info_at(st.start)),
            next.remaining() == self.remaining().skip(1),
    {
        let rest = lex(self.text(), st.end, st.in_string);
        assert(lex(self.text(), self.offset(), self.in_string()) == seq![(st.token, st.start)]
            + rest);
        assert(next.remaining() =~= self.remaining().skip(1));
    }

    /// Whether the character after the current one is `req`.
    fn is_next(&self, req: char) -> (r: bool)
        requires
            self.wf(),
        ensures
            r == (char_at(self.text(), self.offset() + 1) == Some(req)),
    {
        match self.scanner.next_char() {
            Some(c) => c == req,
            None => false,
        }
    }

    /// Whether the character after the current one opens a group.
    fn is_next_opener(&self) -> (r: bool)
        requires
            self.wf(),
        ensures
            r == (self.offset() + 1 < self.text().len() && is_opener(
                self.text()[self.offset() + 1],
            )),
    {
        proof {
            self.scanner.offset_in_text();
        }
        match self.scanner.next_char() {
            Some(c) => opens_group(c),
            None => false,
        }
    }

    /// Whether a character stands before the current one and is a separator.
    fn is_prev_whitespace(&self) -> (r: bool)
        requires
            self.wf(),
        ensures
            r == (self.offset() > 0 && is_separator(self.text()[self.offset() - 1])),
    {
        proof {
            self.scanner.offset_in_text();
        }
        match self.scanner.previous_char() {
            Some(c) => is_whitespace(c),
            None => false,
        }
    }

    /// Whether the current character, which is `c`, begins a comment.
    fn at_comment(&self, c: char) -> (r: bool)
        requires
            self.wf(),
            self.offset() < self.text().len(),
            c == self.text()[self.offset()],
        ensures
            r == starts_comment(self.text(), self.offset()),
    {
        proof {
            self.scanner.offset_in_text();
        }
        if c == ';' {
            true
        } else if c == '#' && self.is_next('!') {
            match self.scanner.previous_char() {
                Some(_) => self.is_prev_whitespace(),
                None => true,
            }
        } else {
            false
        }
    }

    /// Consumes separators and comments up to the next token.
    fn skip_blank(&mut self)
        requires
            old(self).wf(),
        ensures
            final(self).wf(),
            final(self).text() == old(self).text(),
            final(self).in_string() == old(self).in_string(),
            final(self).offset() == skip_blank(old(self).text(), old(self).offset()),
    {
        proof {
            self.scanner.offset_in_text();
        }
        loop
            invariant
                self.wf(),
                self.text() == old(self).text(),
                self.in_string() == old(self).in_string(),
                0 <= self.offset() <= self.text().len(),
                skip_blank(self.text(), self.offset()) == skip_blank(
                    old(self).text(),
                    old(self).offset(),
                ),
            ensures
                self.wf(),
                self.text() == old(self).text(),
                self.in_string() == old(self).in_string(),
                self.offset() == skip_blank(old(self).text(), old(self).offset()),
            decreases self.text().len() - self.offset(),
        {
            match self.scanner.current_char() {
                None => {
                    break ;
                },
                Some(c) => {
                    if is_whitespace(c) {
                        self.scanner.pop();
                    } else if self.at_comment(c) {
                        proof {
                            lemma_next_line_start_bounds(self.text(), self.offset());
                        }
                        self.scanner.flush_line();
                    } else {
                        break ;
                    }
                },
            }
        }
    }

    /// Consumes a word whose first character, `first`, is the current one.
    fn read_word(&mut self, first: char) -> (word: String)
        requires
            old(self).wf(),
            old(self).offset() < old(self).text().len(),
            first == old(self).text()[old(self).offset()],
        ensures
            final(self).wf(),
            final(self).text() == old(self).text(),
            final(self).in_string() == old(self).in_string(),
            final(self).offset() == word_end(old(self).text(), old(self).offset() + 1),
            word@ == old(self).text().subrange(old(self).offset(), final(self).offset()),
    {
        proof {
            self.scanner.offset_in_text();
        }
        let ghost start = self.offset();
        let mut word = String::new();
        word.push(first);
        self.scanner.pop();
        assert(word@ =~= self.text().subrange(start, start + 1));
        loop
            invariant
                self.wf(),
                self.text() == old(self).text(),
                self.in_string() == old(self).in_string(),
                start == old(self).offset(),
                0 <= start < self.offset() <= self.text().len(),
                word@ == self.text().subrange(start, self.offset()),
                word_end(self.text(), self.offset()) == word_end(self.text(), start + 1),
            ensures
                self.wf(),
                self.text() == old(self).text(),
                self.in_string() == old(self).in_string(),
                self.offset() == word_end(self.text(), start + 1),
                word@ == self.text().subrange(start, self.offset()),
            decreases self.text().len() - self.offset(),
        {
            match self.scanner.current_char() {
                None => {
                    break ;
                },
                Some(c) => {
                    if is_whitespace(c) || opens_group(c) || closes_group(c) || c == '"' || c
                        == ';' || (c == '#' && self.is_next_opener()) {
                        break ;
                    }
                    let ghost at = self.offset();
                    word.push(c);
                    self.scanner.pop();
                    assert(word@ =~= self.text().subrange(start, at + 1));
                },
            }
        }
        word
    }

    /// Consumes the body of a string up to its closing quote or the end of
    /// the text; `first`, the current character, is no quote.
    fn read_body(&mut self, first: char) -> (body: String)
        requires
            old(self).wf(),
            old(self).offset() < old(self).text().len(),
            first == old(self).text()[old(self).offset()],
            first != '"',
        ensures
            final(self).wf(),
            final(self).text() == old(self).text(),
            final(self).in_string() == old(self).in_string(),
            final(self).offset() == string_end(old(self).text(), old(self).offset()),
            body@ == old(self).text().subrange(old(self).offset(), final(self).offset()),
    {
        proof {
            self.scanner.offset_in_text();
        }
        let ghost start = self.offset();
        let mut body = String::new();
        body.push(first);
        self.scanner.pop();
        assert(body@ =~= self.text().subrange(start, start + 1));
        loop
            invariant
                self.wf(),
                self.text() == old(self).text(),
                self.in_string() == old(self).in_string(),
                start == old(self).offset(),
                0 <= start < self.offset() <= self.text().len(),
                body@ == self.text().subrange(start, self.offset()),
                string_end(self.text(), self.offset()) == string_end(self.text(), start),
            ensures
                self.wf(),
                self.text() == old(self).text(),
                self.in_string() == old(self).in_string(),
                self.offset() == string_end(self.text(), start),
                body@ == self.text().subrange(start, self.offset()),
            decreases self.text().len() - self.offset(),
        {
            match self.scanner.current_char() {
                None => {
                    break ;
                },
                Some(c) => {
                    if c == '"' {
                        break ;
                    }
                    let ghost at = self.offset();
                    body.push(c);
                    self.scanner.pop();
                    assert(body@ =~= self.text().subrange(start, at + 1));
                },
            }
        }
        body
    }

    /// Consumes the current character `c`, a quote or a structural
    /// delimiter, and gives its token.
    fn read_mark(&mut self, c: char) -> (token: Token)
        requires
            old(self).wf(),
            old(self).offset() < old(self).text().len(),
            c == old(self).text()[old(self).offset()],
            c == '"' || is_delimiter(c),
        ensures
            final(self).wf(),
            final(self).text() == old(self).text(),
            final(self).offset() == old(self).offset() + 1,
            final(self).in_string() == if c == '"' {
                !old(self).in_string()
            } else {
                old(self).in_string()
            },
            token@ == if c == '"' {
                SpecToken::StringDelimiter
            } else {
                delimiter_token(c)
            },
    {
        self.scanner.pop();
        if c == '"' {
            self.stringing = !self.stringing;
            Token::StringDelimiter
        } else if c == '(' {
            Token::ListOpen
        } else if c == ')' {
            Token::ListClose
        } else if c == '[' {
            Token::VectorOpen
        } else if c == ']' {
            Token::VectorClose
        } else if c == '{' {
            Token::MapOpen
        } else {
            Token::MapClose
        }
    }

    /// Produces the next token with its place, or `None` when the text holds
    /// no further token.
    pub fn next(&mut self) -> (r: Option<(Token, TokenInfo)>)
        requires
            old(self).wf(),
        ensures
            final(self).wf(),
            final(self).text() == old(self).text(),
            match step(old(self).text(), old(self).offset(), old(self).in_string()) {
                None => r is None,
                Some(st) => {
                    &&& r matches Some(p)
                    &&& p.0@ == st.token
                    &&& p.1 == old(self).info_at(st.start)
                    &&& final(self).offset() == st.end
                    &&& final(self).in_string() == st.in_string
                },
            },
            r is None <==> old(self).remaining().len() == 0,
            r is None ==> final(self).remaining() == old(self).remaining(),
            r matches Some(p) ==> (p.0@, p.1) == old(self).remaining()[0]
                && final(self).remaining() == old(self).remaining().skip(1),
    {
        proof {
            self.scanner.offset_in_text();
        }
        if !self.stringing {
            self.skip_blank();
        }
        let ghost s = old(self).text();
        let ghost st = step(s, old(self).offset(), old(self).in_string());
        proof {
            if !old(self).in_string() {
                lemma_skip_blank_bounds(s, old(self).offset());
            }
        }
        let ghost j = self.offset();
        let r = match self.scanner.current_char() {
            None => None,
            Some(c) => {
                let info = TokenInfo::new(self.scanner.position());
                if c == '"' || (!self.stringing && (opens_group(c) || closes_group(c))) {
                    let token = self.read_mark(c);
                    assert(st matches Some(x) && x.token == token@ && x.start == j && x.end
                        == self.offset() && x.in_string == self.in_string());
                    Some((token, info))
                } else if self.stringing {
                    let body = self.read_body(c);
                    assert(st matches Some(x) && x.token == SpecToken::Literal(body@) && x.start
                        == j && x.end == self.offset() && x.in_string == self.in_string());
                    Some((Token::Literal(body), info))
                } else if c == '#' && self.is_next_opener() {
                    let mut prefix = String::new();
                    prefix.push(c);
                    match self.scanner.next_char() {
                        Some(n) => {
                            prefix.push(n);
                        },
                        None => {},
                    }
                    self.scanner.pop();
                    self.scanner.pop();
                    assert(prefix@ =~= s.subrange(j, j + 2));
                    assert(st matches Some(x) && x.token == SpecToken::DispatchPrefixed(prefix@)
                        && x.start == j && x.end == self.offset() && x.in_string
                        == self.in_string());
                    Some((Token::DispatchPrefixed(prefix), info))
                } else {
                    let word = self.read_word(c);
                    proof {
                        lemma_word_end_bounds(s, j + 1);
                    }
                    assert(word@[0] == c);
                    assert(st matches Some(x) && x.token == word_token(word@) && x.start == j
                        && x.end == self.offset() && x.in_string == self.in_string());
                    if c == '#' {
                        Some((Token::DispatchPrefixed(word), info))
                    } else {
                        Some((Token::Literal(word), info))
                    }
                }
            },
        };
        proof {
            match step(old(self).text(), old(self).offset(), old(self).in_string()) {
                None => {
                    assert(old(self).remaining() =~= Seq::empty());
                    lemma_lex_stays_empty(
                        self.text(),
                        old(self).offset(),
                        self.offset(),
                        self.in_string(),
                    );
                    assert(self.remaining() =~= Seq::empty());
                },
                Some(st) => {
                    old(self).lemma_remaining_step(self, st);
                },
            }
        }
        r
    }

    /// Produces all the tokens that are left.
    pub fn collect(&mut self) -> (tokens: Vec<(Token, TokenInfo)>)
        requires
            old(self).wf(),
        ensures
            final(self).wf(),
            final(self).text() == old(self).text(),
            final(self).remaining().len() == 0,
            tokens.len() == old(self).remaining().len(),
            forall|k: int|
                0 <= k < tokens.len() ==> (#[trigger] tokens[k]).0@ == old(self).remaining()[k].0
                    && tokens[k].1 == old(self).remaining()[k].1,
    {
        let mut tokens: Vec<(Token, TokenInfo)> = Vec::new();
        loop
            invariant
                self.wf(),
                self.text() == old(self).text(),
                tokens.len() + self.remaining().len() == old(self).remaining().len(),
                self.remaining() == old(self).remaining().skip(tokens.len() as int),
                forall|k: int|
                    0 <= k < tokens.len() ==> (#[trigger] tokens[k]).0@ == old(self).remaining()[k].0
                        && tokens[k].1 == old(self).remaining()[k].1,
            ensures
                self.wf(),
                self.text() == old(self).text(),
                self.remaining().len() == 0,
                tokens.len() == old(self).remaining().len(),
                forall|k: int|
                    0 <= k < tokens.len() ==> (#[trigger] tokens[k]).0@ == old(self).remaining()[k].0
                        && tokens[k].1 == old(self).remaining()[k].1,
            decreases self.remaining().len(),
        {
            let ghost before = self.remaining();
            match self.next() {
                None => {
                    break ;
                },
                Some(p) => {
                    assert(before.skip(1) =~= old(self).remaining().skip(tokens.len() + 1));
                    tokens.push(p);
                },
            }
        }
        tokens
    }
}

impl<S: Scanner> TokenSource for TokenStream<S> {
    open spec fn source_wf(&self) -> bool {
        self.wf()
    }

    open spec fn upcoming(&self) -> Seq<(SpecToken, TokenInfo)> {
        self.remaining()
    }

    fn next_token(&mut self) -> (r: Option<(Token, TokenInfo)>) {
        self.next()
    }
}

/// Where nothing is left to read, nothing is left further on either.
pub proof fn lemma_lex_stays_empty(s: Seq<char>, i: int, j: int, in_string: bool)
    requires
        0 <= i <= s.len(),
        step(s, i, in_string) is None,
        j == if in_string {
            i
        } else {
            skip_blank(s, i)
        },
    ensures
        lex(s, j, in_string) =~= Seq::empty(),
{
    if !in_string {
        lemma_skip_blank_bounds(s, i);
        lemma_skip_blank_idempotent(s, i);
    }
}

/// Skipping blanks twice skips no more than once.
pub proof fn lemma_skip_blank_idempotent(s: Seq<char>, i: int)
    requires
        0 <= i <= s.len(),
    ensures
        skip_blank(s, skip_blank(s, i)) == skip_blank(s, i),
    decreases s.len() - i,
{
    if i < s.len() {
        if is_separator(s[i]) {
            lemma_skip_blank_idempotent(s, i + 1);
        } else if starts_comment(s, i) {
            lemma_next_line_start_bounds(s, i);
            lemma_skip_blank_idempotent(s, next_line_start(s, i));
        }
    }
}

/// The tokens of a text held in memory.
pub fn tokenize(str: String) -> (ts: TokenStream<StringScanner>)
    ensures
        ts.wf(),
        ts.text() == str@,
        ts.offset() == 0,
        !ts.in_string(),
        ts.remaining() == located_tokens::<StringScanner>(str@),
{
    let scanner = StringScanner::new(&str);
    TokenStream::new(scanner)
}

/// The tokens of a text given line by line, each line without its line
/// break.
pub fn tokenize_stream(lines: Vec<String>) -> (ts: TokenStream<LineScanner>)
    ensures
        ts.wf(),
        ts.text() == joined_lines(string_views(lines@)),
        ts.offset() == 0,
        !ts.in_string(),
        ts.remaining() == located_tokens::<LineScanner>(joined_lines(string_views(lines@))),
{
    let scanner = LineScanner::from_buffer(lines);
    TokenStream::new(scanner)
}

} // verus!
