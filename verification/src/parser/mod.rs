//! The reading pipeline, stage by stage, and its last stage: from forms to
//! expressions.

pub mod chars;
pub mod laws;
pub mod reader;
pub mod scanner;
pub mod text;
pub mod tokenizer;
pub mod transparency;

use vstd::prelude::*;
use crate::parser::chars::{is_decimal_digit, is_digit};
use crate::parser::reader::{
    lemma_read_consumes, read, read_form, view_forms, Form, FormStream, Outer, ReadError,
    ReadStep, SpecForm, SpecReadError,
};
use crate::parser::scanner::{joined_lines, string_views, LineScanner, Scanner, StringScanner};
use crate::parser::tokenizer::{
    located_tokens, tokenize, tokenize_stream, SpecToken, TokenInfo, TokenSource,
};

verus! {

/// A node of the syntax tree.
#[derive(Debug, PartialEq, Eq)]
pub enum Expression {
    Symbol(String),
    /// A number, as the text it was written with.
    Number(String),
    String(String),
    /// A list form: an invocation.
    SExpression(Vec<Expression>),
    /// A vector of formal parameters.
    ParameterList(Vec<Expression>),
}

/// What an `Expression` stands for in contracts.
pub enum SpecExpression {
    Symbol(Seq<char>),
    Number(Seq<char>),
    String(Seq<char>),
    SExpression(Seq<SpecExpression>),
    ParameterList(Seq<SpecExpression>),
}

impl View for Expression {
    type V = SpecExpression;

    open spec fn view(&self) -> SpecExpression
        decreases self,
    {
        match self {
            Expression::Symbol(t) => SpecExpression::Symbol(t@),
            Expression::Number(t) => SpecExpression::Number(t@),
            Expression::String(t) => SpecExpression::String(t@),
            Expression::SExpression(v) => SpecExpression::SExpression(view_expressions(v@)),
            Expression::ParameterList(v) => SpecExpression::ParameterList(view_expressions(v@)),
        }
    }
}

/// The expressions that a sequence of expressions stands for.
pub open spec fn view_expressions(v: Seq<Expression>) -> Seq<SpecExpression>
    decreases v,
{
    Seq::new(
        v.len(),
        |i: int|
            if 0 <= i < v.len() {
                v[i].view()
            } else {
                SpecExpression::SExpression(Seq::empty())
            },
    )
}

impl Clone for Expression {
    fn clone(&self) -> (r: Expression)
        ensures
            r@ == self@,
        decreases self,
    {
        match self {
            Expression::Symbol(t) => Expression::Symbol(t.clone()),
            Expression::Number(t) => Expression::Number(t.clone()),
            Expression::String(t) => Expression::String(t.clone()),
            Expression::SExpression(v) => Expression::SExpression(clone_expressions(v)),
            Expression::ParameterList(v) => Expression::ParameterList(clone_expressions(v)),
        }
    }
}

/// A copy of each expression of `v`, in order.
pub fn clone_expressions(v: &Vec<Expression>) -> (r: Vec<Expression>)
    ensures
        view_expressions(r@) == view_expressions(v@),
    decreases v,
{
    let mut r: Vec<Expression> = Vec::new();
    let mut i: usize = 0;
    while i < v.len()
        invariant
            i <= v.len(),
            r.len() == i,
            forall|k: int| 0 <= k < i ==> r[k]@ == v[k]@,
        decreases v.len() - i,
    {
        r.push(v[i].clone());
        i = i + 1;
    }
    assert(view_expressions(r@) =~= view_expressions(v@));
    r
}

/// A copy of the expressions `v[from..to]`.
pub fn copy_range(v: &Vec<Expression>, from: usize, to: usize) -> (r: Vec<Expression>)
    requires
        from <= to <= v.len(),
    ensures
        view_expressions(r@) == view_expressions(v@).subrange(from as int, to as int),
{
    let mut r: Vec<Expression> = Vec::new();
    let mut i: usize = from;
    while i < to
        invariant
            from <= i <= to <= v.len(),
            r.len() == i - from,
            forall|k: int| 0 <= k < r.len() ==> r[k]@ == v[from + k]@,
        decreases to - i,
    {
        r.push(v[i].clone());
        i = i + 1;
    }
    assert(view_expressions(r@) =~= view_expressions(v@).subrange(from as int, to as int));
    r
}

/// The symbol named `str`.
pub fn symbol(str: String) -> (e: Expression)
    ensures
        e@ == SpecExpression::Symbol(str@),
{
    Expression::Symbol(str)
}

/// The number written `str`.
pub fn number(str: String) -> (e: Expression)
    ensures
        e@ == SpecExpression::Number(str@),
{
    Expression::Number(str)
}

/// The string with the text `str`.
pub fn string(str: String) -> (e: Expression)
    ensures
        e@ == SpecExpression::String(str@),
{
    Expression::String(str)
}

/// Why a text is no sequence of expressions. Each error names the place of
/// the token or the form that it is about.
#[derive(Debug, PartialEq, Eq)]
pub enum ParseError {
    /// The tokens are no sequence of forms.
    Read(ReadError),
    /// The dispatch form at `at` has a prefix that has no meaning.
    UnknownDispatch { prefix: String, at: TokenInfo },
    /// The literal at `at` has no characters.
    EmptyLiteral { at: TokenInfo },
}

/// What a `ParseError` stands for in contracts.
pub enum SpecParseError {
    Read(SpecReadError),
    UnknownDispatch { prefix: Seq<char>, at: TokenInfo },
    EmptyLiteral { at: TokenInfo },
}

impl View for ParseError {
    type V = SpecParseError;

    open spec fn view(&self) -> SpecParseError {
        match self {
            ParseError::Read(e) => SpecParseError::Read(e@),
            ParseError::UnknownDispatch { prefix, at } => SpecParseError::UnknownDispatch {
                prefix: prefix@,
                at: *at,
            },
            ParseError::EmptyLiteral { at } => SpecParseError::EmptyLiteral { at: *at },
        }
    }
}

/// Whether a literal is written as a number: it begins with a digit, or with
/// `-` and a digit.
pub open spec fn is_number_text(t: Seq<char>) -> bool {
    t.len() > 0 && (is_digit(t[0]) || (t.len() > 1 && t[0] == '-' && is_digit(t[1])))
}

/// The expression of the literal `t`, which stands at `at`: a number or a
/// symbol.
pub open spec fn literal_expression(t: Seq<char>, at: TokenInfo) -> Result<
    SpecExpression,
    SpecParseError,
> {
    if t.len() == 0 {
        Err(SpecParseError::EmptyLiteral { at })
    } else if is_number_text(t) {
        Ok(SpecExpression::Number(t))
    } else {
        Ok(SpecExpression::Symbol(t))
    }
}

/// The expression of a form.
///
/// A list is an invocation. A vector, a map and a set literal `#{` are
/// invocations of `vector`, `hash-map` and `set`. A dispatch form `#[` is a
/// parameter list; any other dispatch prefix has no meaning, whatever the
/// form holds.
pub open spec fn expression_of(form: SpecForm) -> Result<SpecExpression, SpecParseError>
    decreases form, 0int,
{
    match form {
        SpecForm::Literal(t, at) => literal_expression(t, at),
        SpecForm::StringBody(t) => Ok(SpecExpression::String(t)),
        SpecForm::List(inner) => match expressions_of(inner) {
            Ok(xs) => Ok(SpecExpression::SExpression(xs)),
            Err(e) => Err(e),
        },
        SpecForm::Vector(inner) => match expressions_of(inner) {
            Ok(xs) => Ok(SpecExpression::SExpression(seq![SpecExpression::Symbol("vector"@)] + xs)),
            Err(e) => Err(e),
        },
        SpecForm::Mapping(inner) => match expressions_of(inner) {
            Ok(xs) => Ok(
                SpecExpression::SExpression(seq![SpecExpression::Symbol("hash-map"@)] + xs),
            ),
            Err(e) => Err(e),
        },
        SpecForm::Dispatch(prefix, inner, at) => if prefix == "#{"@ {
            match expressions_of(inner) {
                Ok(xs) => Ok(
                    SpecExpression::SExpression(seq![SpecExpression::Symbol("set"@)] + xs),
                ),
                Err(e) => Err(e),
            }
        } else if prefix == "#["@ {
            match expressions_of(inner) {
                Ok(xs) => Ok(SpecExpression::ParameterList(xs)),
                Err(e) => Err(e),
            }
        } else {
            Err(SpecParseError::UnknownDispatch { prefix, at })
        },
    }
}

/// The expressions of a sequence of forms, or the error of the first form
/// that has one.
pub open spec fn expressions_of(forms: Seq<SpecForm>) -> Result<Seq<SpecExpression>, SpecParseError>
    decreases forms, 1int,
{
    if forms.len() == 0 {
        Ok(Seq::empty())
    } else {
        match expressions_of(forms.drop_last()) {
            Err(e) => Err(e),
            Ok(xs) => match expression_of(forms.last()) {
                Err(e) => Err(e),
                Ok(x) => Ok(xs.push(x)),
            },
        }
    }
}

/// Whether an outcome is the one that a contract names.
pub open spec fn is_outcome(
    r: Result<Expression, ParseError>,
    expected: Result<SpecExpression, SpecParseError>,
) -> bool {
    match expected {
        Ok(x) => r matches Ok(e) && e@ == x,
        Err(x) => r matches Err(e) && e@ == x,
    }
}

/// Whether an outcome with several expressions is the one that a contract
/// names.
pub open spec fn are_outcome(
    r: Result<Vec<Expression>, ParseError>,
    expected: Result<Seq<SpecExpression>, SpecParseError>,
) -> bool {
    match expected {
        Ok(xs) => r matches Ok(v) && view_expressions(v@) == xs,
        Err(x) => r matches Err(e) && e@ == x,
    }
}

/// Puts `item` before the items of `v`.
pub fn prepend<T>(item: T, v: Vec<T>) -> (r: Vec<T>)
    ensures
        r@ == seq![item] + v@,
{
    let ghost items = v@;
    let mut r = v;
    r.insert(0, item);
    assert(r@ =~= seq![item] + items);
    r
}

/// Classifies the literal `text`, which stands at `at`, as a number or a
/// symbol.
pub fn classify(text: &String, at: TokenInfo) -> (r: Result<Expression, ParseError>)
    ensures
        is_outcome(r, literal_expression(text@, at)),
{
    let n = text.as_str().unicode_len();
    if n == 0 {
        Err(ParseError::EmptyLiteral { at })
    } else {
        let first = text.as_str().get_char(0);
        let numeric = if is_decimal_digit(first) {
            true
        } else if n > 1 && first == '-' {
            is_decimal_digit(text.as_str().get_char(1))
        } else {
            false
        };
        if numeric {
            Ok(Expression::Number(text.clone()))
        } else {
            Ok(Expression::Symbol(text.clone()))
        }
    }
}

/// An invocation of the symbol `name` on `arguments`.
fn invocation(name: &str, arguments: Vec<Expression>) -> (e: Expression)
    ensures
        e@ == SpecExpression::SExpression(
            seq![SpecExpression::Symbol(name@)] + view_expressions(arguments@),
        ),
{
    let ghost args = view_expressions(arguments@);
    let head = Expression::Symbol(String::from_str(name));
    let all = prepend(head, arguments);
    assert(view_expressions(all@) =~= seq![SpecExpression::Symbol(name@)] + args);
    Expression::SExpression(all)
}

/// The expression of the dispatch form at `at` with the prefix `value` and
/// the content `inner`.
pub fn dispatch(value: &String, inner: &Vec<Form>, at: TokenInfo) -> (r: Result<
    Expression,
    ParseError,
>)
    ensures
        is_outcome(r, expression_of(SpecForm::Dispatch(value@, view_forms(inner@), at))),
    decreases inner, 2int,
{
    let set_prefix = String::from_str("#{");
    let parameters_prefix = String::from_str("#[");
    if *value == set_prefix {
        match parse_vec(inner) {
            Ok(xs) => Ok(invocation("set", xs)),
            Err(e) => Err(e),
        }
    } else if *value == parameters_prefix {
        match parse_vec(inner) {
            Ok(xs) => Ok(Expression::ParameterList(xs)),
            Err(e) => Err(e),
        }
    } else {
        Err(ParseError::UnknownDispatch { prefix: value.clone(), at })
    }
}

/// The expression of a form.
pub fn build(form: &Form) -> (r: Result<Expression, ParseError>)
    ensures
        is_outcome(r, expression_of(form@)),
    decreases form, 3int,
{
    match form {
        Form::Literal(text, at) => classify(text, *at),
        Form::StringBody(text) => Ok(Expression::String(text.clone())),
        Form::List(inner) => match parse_vec(inner) {
            Ok(xs) => Ok(Expression::SExpression(xs)),
            Err(e) => Err(e),
        },
        Form::Vector(inner) => match parse_vec(inner) {
            Ok(xs) => Ok(invocation("vector", xs)),
            Err(e) => Err(e),
        },
        Form::Mapping(inner) => match parse_vec(inner) {
            Ok(xs) => Ok(invocation("hash-map", xs)),
            Err(e) => Err(e),
        },
        Form::Dispatch(prefix, inner, at) => dispatch(prefix, inner, *at),
    }
}

/// The expressions of a sequence of forms, or the error of the first form
/// that has one.
pub fn parse_vec(forms: &Vec<Form>) -> (r: Result<Vec<Expression>, ParseError>)
    ensures
        are_outcome(r, expressions_of(view_forms(forms@))),
    decreases forms, 1int,
{
    let ghost all = view_forms(forms@);
    let mut out: Vec<Expression> = Vec::new();
    let mut i: usize = 0;
    assert(all.take(0) =~= Seq::empty());
    assert(view_expressions(out@) =~= Seq::empty());
    while i < forms.len()
        invariant
            i <= forms.len(),
            all == view_forms(forms@),
            expressions_of(all.take(i as int)) == Ok::<Seq<SpecExpression>, SpecParseError>(
                view_expressions(out@),
            ),
        decreases forms.len() - i,
    {
        let ghost so_far = view_expressions(out@);
        assert(all.take(i + 1).drop_last() =~= all.take(i as int));
        assert(all.take(i + 1).last() == forms[i as int]@);
        match build(&forms[i]) {
            Err(e) => {
                proof {
                    lemma_error_stays(all, i + 1);
                }
                return Err(e);
            },
            Ok(x) => {
                out.push(x);
                assert(view_expressions(out@) =~= so_far.push(x@));
            },
        }
        i = i + 1;
    }
    assert(all.take(i as int) =~= all);
    Ok(out)
}

/// An error among the first `n` forms is the error of the whole sequence.
pub proof fn lemma_error_stays(forms: Seq<SpecForm>, n: int)
    requires
        0 <= n <= forms.len(),
        expressions_of(forms.take(n)) is Err,
    ensures
        expressions_of(forms) == expressions_of(forms.take(n)),
    decreases forms.len() - n,
{
    if n < forms.len() {
        assert(forms.take(n + 1).drop_last() =~= forms.take(n));
        lemma_error_stays(forms, n + 1);
    } else {
        assert(forms.take(n) =~= forms);
    }
}

/// The result of reading one expression.
pub enum ParseStep {
    /// No token is left.
    End,
    /// An expression, and the tokens behind it.
    Expression(SpecExpression, Seq<(SpecToken, TokenInfo)>),
    /// The tokens are malformed, or a form has no meaning.
    Fail(SpecParseError),
}

/// Reads the first top-level form of `toks` and gives its expression.
pub open spec fn parse_one(toks: Seq<(SpecToken, TokenInfo)>) -> ParseStep {
    match read_form(toks, Outer::TopLevel) {
        ReadStep::End => ParseStep::End,
        ReadStep::Fail(e) => ParseStep::Fail(SpecParseError::Read(e)),
        ReadStep::Form(f, rest) => match expression_of(f) {
            Ok(x) => ParseStep::Expression(x, rest),
            Err(e) => ParseStep::Fail(e),
        },
    }
}

/// The expressions of a sequence of tokens, form by form: the first form
/// that cannot be read, or has no meaning, ends the work with its error.
pub open spec fn parse_tokens(toks: Seq<(SpecToken, TokenInfo)>) -> Result<
    Seq<SpecExpression>,
    SpecParseError,
>
    decreases toks.len(),
{
    match parse_one(toks) {
        ParseStep::End => Ok(Seq::empty()),
        ParseStep::Fail(e) => Err(e),
        ParseStep::Expression(x, rest) => {
            proof {
                lemma_read_consumes(toks, Outer::TopLevel);
            }
            match parse_tokens(rest) {
                Ok(xs) => Ok(seq![x] + xs),
                Err(e) => Err(e),
            }
        },
    }
}

/// The expressions of a text, as a scanner of type `S` reads it.
pub open spec fn parse_text<S: Scanner>(text: Seq<char>) -> Result<
    Seq<SpecExpression>,
    SpecParseError,
> {
    parse_tokens(located_tokens::<S>(text))
}

/// A lazy, forward-only sequence of expressions over a sequence of forms.
/// After the first error it yields nothing more.
pub struct ExpressionStream<T: TokenSource> {
    forms: FormStream<T>,
    failed: bool,
}

impl<T: TokenSource> ExpressionStream<T> {
    /// The invariant: that of the forms.
    pub closed spec fn wf(&self) -> bool {
        self.forms.wf()
    }

    /// The tokens that are still to be read; none after an error.
    pub closed spec fn pending(&self) -> Seq<(SpecToken, TokenInfo)> {
        if self.failed {
            Seq::empty()
        } else {
            self.forms.pending()
        }
    }

    /// Produces the next expression, `None` when no token is left, or the
    /// error that ends the work.
    pub fn next(&mut self) -> (r: Result<Option<Expression>, ParseError>)
        requires
            old(self).wf(),
        ensures
            final(self).wf(),
            match parse_one(old(self).pending()) {
                ParseStep::End => {
                    &&& r matches Ok(None)
                    &&& final(self).pending() == old(self).pending()
                },
                ParseStep::Expression(x, rest) => {
                    &&& r matches Ok(Some(e))
                    &&& e@ == x
                    &&& final(self).pending() == rest
                },
                ParseStep::Fail(x) => r matches Err(e) && e@ == x && final(self).pending().len()
                    == 0,
            },
    {
        if self.failed {
            return Ok(None);
        }
        match self.forms.next() {
            Err(e) => {
                self.failed = true;
                Err(ParseError::Read(e))
            },
            Ok(None) => Ok(None),
            Ok(Some(form)) => match build(&form) {
                Ok(e) => Ok(Some(e)),
                Err(e) => {
                    self.failed = true;
                    Err(e)
                },
            },
        }
    }

    /// Produces all the expressions that are left, or the first error.
    pub fn collect(&mut self) -> (r: Result<Vec<Expression>, ParseError>)
        requires
            old(self).wf(),
        ensures
            final(self).wf(),
            are_outcome(r, parse_tokens(old(self).pending())),
    {
        let mut out: Vec<Expression> = Vec::new();
        let ghost start = self.pending();
        assert(view_expressions(out@) =~= Seq::empty());
        loop
            invariant
                self.wf(),
                start == old(self).pending(),
                match parse_tokens(self.pending()) {
                    Err(e) => parse_tokens(start) == Err::<Seq<SpecExpression>, SpecParseError>(e),
                    Ok(xs) => parse_tokens(start) == Ok::<Seq<SpecExpression>, SpecParseError>(
                        view_expressions(out@) + xs,
                    ),
                },
            decreases self.pending().len(),
        {
            let ghost before = self.pending();
            let ghost so_far = view_expressions(out@);
            proof {
                lemma_read_consumes(before, Outer::TopLevel);
            }
            match self.next() {
                Err(e) => {
                    return Err(e);
                },
                Ok(None) => {
                    assert(so_far + Seq::<SpecExpression>::empty() =~= so_far);
                    return Ok(out);
                },
                Ok(Some(x)) => {
                    out.push(x);
                    assert(view_expressions(out@) =~= so_far.push(x@));
                    proof {
                        match parse_tokens(self.pending()) {
                            Ok(xs) => {
                                assert(so_far + (seq![x@] + xs) =~= view_expressions(out@) + xs);
                            },
                            Err(e) => {},
                        }
                    }
                },
            }
        }
    }
}

/// The expressions of a stream of forms.
pub fn parse<T: TokenSource>(forms: FormStream<T>) -> (expressions: ExpressionStream<T>)
    requires
        forms.wf(),
    ensures
        expressions.wf(),
        expressions.pending() == forms.pending(),
{
    ExpressionStream { forms, failed: false }
}

/// The expressions of a text held in memory, or the first error.
pub fn parse_string(s: String) -> (r: Result<Vec<Expression>, ParseError>)
    ensures
        are_outcome(r, parse_text::<StringScanner>(s@)),
{
    let tokens = tokenize(s);
    let forms = read(tokens);
    let mut expressions = parse(forms);
    expressions.collect()
}

/// The expressions of a text given line by line, each line without its
/// line break, or the first error.
pub fn parse_buffer(lines: Vec<String>) -> (r: Result<Vec<Expression>, ParseError>)
    ensures
        are_outcome(r, parse_text::<LineScanner>(joined_lines(string_views(lines@)))),
{
    let tokens = tokenize_stream(lines);
    let forms = read(tokens);
    let mut expressions = parse(forms);
    expressions.collect()
}

} // verus!
