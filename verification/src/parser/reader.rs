//! From tokens to forms.

use vstd::prelude::*;
use crate::parser::chars::is_opener;
use crate::parser::tokenizer::{SpecToken, Token, TokenInfo, TokenSource};

verus! {

/// A delimiter-structured tree, before literals are classified. The two
/// forms that can have no meaning, a literal and a dispatch form, carry the
/// place of the token that they begin with.
#[derive(Debug, PartialEq, Eq)]
pub enum Form {
    Literal(String, TokenInfo),
    StringBody(String),
    List(Vec<Form>),
    Vector(Vec<Form>),
    Mapping(Vec<Form>),
    Dispatch(String, Vec<Form>, TokenInfo),
}

/// What a `Form` stands for in contracts.
pub enum SpecForm {
    Literal(Seq<char>, TokenInfo),
    StringBody(Seq<char>),
    List(Seq<SpecForm>),
    Vector(Seq<SpecForm>),
    Mapping(Seq<SpecForm>),
    Dispatch(Seq<char>, Seq<SpecForm>, TokenInfo),
}

impl View for Form {
    type V = SpecForm;

    open spec fn view(&self) -> SpecForm
        decreases self,
    {
        match self {
            Form::Literal(t, at) => SpecForm::Literal(t@, *at),
            Form::StringBody(t) => SpecForm::StringBody(t@),
            Form::List(v) => SpecForm::List(view_forms(v@)),
            Form::Vector(v) => SpecForm::Vector(view_forms(v@)),
            Form::Mapping(v) => SpecForm::Mapping(view_forms(v@)),
            Form::Dispatch(t, v, at) => SpecForm::Dispatch(t@, view_forms(v@), *at),
        }
    }
}

/// The forms that a sequence of forms stands for.
pub open spec fn view_forms(v: Seq<Form>) -> Seq<SpecForm>
    decreases v,
{
    Seq::new(
        v.len(),
        |i: int|
            if 0 <= i < v.len() {
                v[i].view()
            } else {
                SpecForm::List(Seq::empty())
            },
    )
}

impl Clone for Form {
    fn clone(&self) -> (r: Form)
        ensures
            r@ == self@,
        decreases self,
    {
        match self {
            Form::Literal(t, at) => Form::Literal(t.clone(), *at),
            Form::StringBody(t) => Form::StringBody(t.clone()),
            Form::List(v) => Form::List(clone_forms(v)),
            Form::Vector(v) => Form::Vector(clone_forms(v)),
            Form::Mapping(v) => Form::Mapping(clone_forms(v)),
            Form::Dispatch(t, v, at) => Form::Dispatch(t.clone(), clone_forms(v), *at),
        }
    }
}

/// A copy of each form of `v`, in order.
fn clone_forms(v: &Vec<Form>) -> (r: Vec<Form>)
    ensures
        view_forms(r@) == view_forms(v@),
    decreases v,
{
    let mut r: Vec<Form> = Vec::new();
    let mut i: usize = 0;
    while i < v.len()
        invariant
            i <= v.len(),
            r.len() == i,
            forall|k: int| 0 <= k < i ==> r[k]@ == v[k]@,
        decreases v.len() - i,
    {
        r.push(v[i].clone());
        i = i + 1;
    }
    assert(view_forms(r@) =~= view_forms(v@));
    r
}

/// The group that is being read when a token is met.
#[derive(Clone, Copy, Debug, PartialEq, Eq, Structural)]
pub enum Outer {
    TopLevel,
    InList,
    InVector,
    InMap,
    InDispatch,
}

/// Why a sequence of tokens is no sequence of forms.
#[derive(Debug, PartialEq, Eq)]
pub enum ReadError {
    /// A closing token stands where the enclosing group cannot end with it.
    UnmatchedClosing { outer: Outer, closing: Token, at: TokenInfo },
    /// The token `expected` had to close a group of the kind `outer`, or a
    /// string that stands in such a group; another token stands there, or
    /// the input has ended.
    Expected { outer: Outer, expected: Token, found: Option<(Token, TokenInfo)> },
    /// The input ends directly behind the quote at `at`, which opens a string.
    OpenString { at: TokenInfo },
}

/// What a `ReadError` stands for in contracts.
pub enum SpecReadError {
    UnmatchedClosing { outer: Outer, closing: SpecToken, at: TokenInfo },
    Expected { outer: Outer, expected: SpecToken, found: Option<(SpecToken, TokenInfo)> },
    OpenString { at: TokenInfo },
}

impl View for ReadError {
    type V = SpecReadError;

    open spec fn view(&self) -> SpecReadError {
        match self {
            ReadError::UnmatchedClosing { outer, closing, at } => SpecReadError::UnmatchedClosing {
                outer: *outer,
                closing: closing@,
                at: *at,
            },
            ReadError::Expected { outer, expected, found } => SpecReadError::Expected {
                outer: *outer,
                expected: expected@,
                found: match found {
                    Some(p) => Some((p.0@, p.1)),
                    None => None,
                },
            },
            ReadError::OpenString { at } => SpecReadError::OpenString { at: *at },
        }
    }
}

/// The token that closes what the character `c` opens.
pub open spec fn closer_for(c: char) -> SpecToken {
    if c == '(' {
        SpecToken::ListClose
    } else if c == '[' {
        SpecToken::VectorClose
    } else {
        SpecToken::MapClose
    }
}

/// For a token that opens a group: the context in which the group's content
/// is read, and the token that must close it. A dispatch token opens a group
/// when its last character is an opening delimiter.
pub open spec fn opened_by(t: SpecToken) -> Option<(Outer, SpecToken)> {
    match t {
        SpecToken::ListOpen => Some((Outer::InList, SpecToken::ListClose)),
        SpecToken::VectorOpen => Some((Outer::InVector, SpecToken::VectorClose)),
        SpecToken::MapOpen => Some((Outer::InMap, SpecToken::MapClose)),
        SpecToken::DispatchPrefixed(text) => if text.len() > 0 && is_opener(text.last()) {
            Some((Outer::InDispatch, closer_for(text.last())))
        } else {
            None
        },
        _ => None,
    }
}

/// Whether the closing token `t` ends the content of a group read in the
/// context `outer`. Inside a dispatch group any closing token does; whether
/// it is the right one is decided when the group is closed.
pub open spec fn ends_group(outer: Outer, t: SpecToken) -> bool {
    ||| outer is InDispatch
    ||| outer is InList && t is ListClose
    ||| outer is InVector && t is VectorClose
    ||| outer is InMap && t is MapClose
}

/// The form of a group opened by `opener`, which stands at `at`, with the
/// content `inner`.
pub open spec fn group_form(opener: SpecToken, inner: Seq<SpecForm>, at: TokenInfo) -> SpecForm {
    match opener {
        SpecToken::ListOpen => SpecForm::List(inner),
        SpecToken::VectorOpen => SpecForm::Vector(inner),
        SpecToken::MapOpen => SpecForm::Mapping(inner),
        _ => SpecForm::Dispatch(opener.text(), inner, at),
    }
}

/// The first of `toks`, if there is one.
pub open spec fn first_of(toks: Seq<(SpecToken, TokenInfo)>) -> Option<(SpecToken, TokenInfo)> {
    if toks.len() > 0 {
        Some(toks[0])
    } else {
        None
    }
}

/// The result of reading one form.
pub enum ReadStep {
    /// No form begins here: the tokens have ended, or a closing token ends
    /// the enclosing group.
    End,
    /// A form, and the tokens behind it.
    Form(SpecForm, Seq<(SpecToken, TokenInfo)>),
    /// The tokens are malformed.
    Fail(SpecReadError),
}

/// Reads the string whose opening quote is the first of `toks`: the token
/// behind the quote is the body, whatever it is, unless it is a quote
/// itself, which makes the string empty; a quote must follow the body.
pub open spec fn read_string(toks: Seq<(SpecToken, TokenInfo)>, outer: Outer) -> ReadStep {
    if toks.len() < 2 {
        ReadStep::Fail(SpecReadError::OpenString { at: toks[0].1 })
    } else if toks[1].0 is StringDelimiter {
        ReadStep::Form(SpecForm::StringBody(Seq::empty()), toks.skip(2))
    } else if toks.len() >= 3 && toks[2].0 is StringDelimiter {
        ReadStep::Form(SpecForm::StringBody(toks[1].0.text()), toks.skip(3))
    } else {
        ReadStep::Fail(
            SpecReadError::Expected {
                outer,
                expected: SpecToken::StringDelimiter,
                found: first_of(toks.skip(2)),
            },
        )
    }
}

/// Reads the form that begins with the first of `toks`, inside a group of
/// the kind `outer`.
pub open spec fn read_form(toks: Seq<(SpecToken, TokenInfo)>, outer: Outer) -> ReadStep
    decreases toks.len(), 0int,
{
    if toks.len() == 0 {
        ReadStep::End
    } else {
        let t = toks[0].0;
        if t.is_closer() {
            if ends_group(outer, t) {
                ReadStep::End
            } else {
                ReadStep::Fail(SpecReadError::UnmatchedClosing { outer, closing: t, at: toks[0].1 })
            }
        } else if t is StringDelimiter {
            read_string(toks, outer)
        } else if t is Literal {
            ReadStep::Form(SpecForm::Literal(t.text(), toks[0].1), toks.skip(1))
        } else {
            match opened_by(t) {
                None => ReadStep::Form(
                    SpecForm::Dispatch(t.text(), Seq::empty(), toks[0].1),
                    toks.skip(1),
                ),
                Some((inside, closer)) => match read_forms(toks.skip(1), inside) {
                    Err(e) => ReadStep::Fail(e),
                    Ok((inner, rest)) => if rest.len() > 0 && rest[0].0 == closer {
                        ReadStep::Form(group_form(t, inner, toks[0].1), rest.skip(1))
                    } else {
                        ReadStep::Fail(
                            SpecReadError::Expected {
                                outer: inside,
                                expected: closer,
                                found: first_of(rest),
                            },
                        )
                    },
                },
            }
        }
    }
}

/// Reads forms up to the end of the enclosing group, and gives them with the
/// tokens that are left: those from the closing token on.
///
/// A form holds at least one token, so the tokens behind it are fewer; the
/// comparison of the two lengths only shows that the definition terminates.
pub open spec fn read_forms(toks: Seq<(SpecToken, TokenInfo)>, outer: Outer) -> Result<
    (Seq<SpecForm>, Seq<(SpecToken, TokenInfo)>),
    SpecReadError,
>
    decreases toks.len(), 1int,
{
    match read_form(toks, outer) {
        ReadStep::End => Ok((Seq::empty(), toks)),
        ReadStep::Fail(e) => Err(e),
        ReadStep::Form(f, rest) => if rest.len() < toks.len() {
            match read_forms(rest, outer) {
                Err(e) => Err(e),
                Ok((fs, left)) => Ok((seq![f] + fs, left)),
            }
        } else {
            Ok((seq![f], rest))
        },
    }
}

/// The forms of a whole sequence of tokens.
pub open spec fn read_all(toks: Seq<(SpecToken, TokenInfo)>) -> Result<
    Seq<SpecForm>,
    SpecReadError,
> {
    match read_forms(toks, Outer::TopLevel) {
        Ok((fs, _)) => Ok(fs),
        Err(e) => Err(e),
    }
}

/// A form holds at least one token, and reading never makes tokens.
pub proof fn lemma_read_consumes(toks: Seq<(SpecToken, TokenInfo)>, outer: Outer)
    ensures
        read_form(toks, outer) matches ReadStep::Form(_, rest) ==> rest.len() < toks.len(),
        read_forms(toks, outer) matches Ok((_, rest)) ==> rest.len() <= toks.len(),
    decreases toks.len(),
{
    if toks.len() > 0 {
        match opened_by(toks[0].0) {
            Some((inside, _)) => {
                lemma_read_consumes(toks.skip(1), inside);
            },
            None => {},
        }
        match read_form(toks, outer) {
            ReadStep::Form(_, rest) => {
                lemma_read_consumes(rest, outer);
            },
            _ => {},
        }
    }
}

/// At the top level reading stops only where the tokens end.
pub proof fn lemma_top_level_reads_all(toks: Seq<(SpecToken, TokenInfo)>)
    ensures
        read_forms(toks, Outer::TopLevel) matches Ok((_, rest)) ==> rest.len() == 0,
    decreases toks.len(),
{
    lemma_read_consumes(toks, Outer::TopLevel);
    match read_form(toks, Outer::TopLevel) {
        ReadStep::Form(_, rest) => {
            lemma_top_level_reads_all(rest);
        },
        _ => {},
    }
}

/// The token that closes the group which the dispatch text `text` opens, if
/// it opens one.
fn dispatch_closer(text: &String) -> (r: Option<Token>)
    ensures
        match opened_by(SpecToken::DispatchPrefixed(text@)) {
            Some((_, closer)) => r matches Some(t) && t@ == closer,
            None => r is None,
        },
{
    let n = text.as_str().unicode_len();
    if n == 0 {
        None
    } else {
        let last = text.as_str().get_char(n - 1);
        if last == '(' {
            Some(Token::ListClose)
        } else if last == '[' {
            Some(Token::VectorClose)
        } else if last == '{' {
            Some(Token::MapClose)
        } else {
            None
        }
    }
}

/// Whether the closing token `t` ends the content of a group read in the
/// context `outer`.
fn token_ends_group(outer: Outer, t: &Token) -> (r: bool)
    requires
        t@.is_closer(),
    ensures
        r == ends_group(outer, t@),
{
    match outer {
        Outer::InDispatch => true,
        Outer::InList => matches!(t, Token::ListClose),
        Outer::InVector => matches!(t, Token::VectorClose),
        Outer::InMap => matches!(t, Token::MapClose),
        Outer::TopLevel => false,
    }
}

/// A lazy, forward-only sequence of forms over a sequence of tokens, with
/// one token of look-ahead. After the first error it yields nothing more.
pub struct FormStream<T: TokenSource> {
    tokens: T,
    current: Option<(Token, TokenInfo)>,
    failed: bool,
}

impl<T: TokenSource> FormStream<T> {
    /// The invariant: the look-ahead is empty only where no token is left.
    pub closed spec fn wf(&self) -> bool {
        &&& self.tokens.source_wf()
        &&& !self.failed && self.current is None ==> self.tokens.upcoming().len() == 0
    }

    /// The tokens that are still to be read; none after an error.
    pub closed spec fn pending(&self) -> Seq<(SpecToken, TokenInfo)> {
        if self.failed {
            Seq::empty()
        } else {
            match self.current {
                Some(p) => seq![(p.0@, p.1)] + self.tokens.upcoming(),
                None => Seq::empty(),
            }
        }
    }

    /// Whether an error has stopped the stream.
    pub closed spec fn has_failed(&self) -> bool {
        self.failed
    }

    /// Moves the look-ahead one token on.
    fn read_next(&mut self)
        requires
            old(self).tokens.source_wf(),
            !old(self).failed,
        ensures
            final(self).wf(),
            !final(self).failed,
            final(self).pending() == old(self).tokens.upcoming(),
    {
        self.current = self.tokens.next_token();
        assert(self.pending() =~= old(self).tokens.upcoming());
    }

    /// Stops the stream and hands `error` on.
    fn fail(&mut self, error: ReadError) -> (r: Result<Option<Form>, ReadError>)
        requires
            old(self).tokens.source_wf(),
        ensures
            final(self).wf(),
            final(self).pending().len() == 0,
            r == Err::<Option<Form>, ReadError>(error),
    {
        self.failed = true;
        Err(error)
    }

    /// Takes the look-ahead token if it is `expected`; if it is another one,
    /// or none is left, the stream fails inside a group of the kind `outer`.
    fn assert_token(&mut self, outer: Outer, expected: Token) -> (r: Result<(), ReadError>)
        requires
            old(self).wf(),
            !old(self).failed,
        ensures
            final(self).wf(),
            match r {
                Ok(_) => {
                    &&& old(self).pending().len() > 0
                    &&& old(self).pending()[0].0 == expected@
                    &&& final(self).pending() == old(self).pending().skip(1)
                    &&& !final(self).failed
                },
                Err(e) => {
                    &&& !(old(self).pending().len() > 0 && old(self).pending()[0].0 == expected@)
                    &&& e@ == SpecReadError::Expected {
                        outer,
                        expected: expected@,
                        found: first_of(old(self).pending()),
                    }
                    &&& final(self).pending().len() == 0
                },
            },
    {
        let ghost toks = self.pending();
        match self.current.take() {
            None => {
                self.failed = true;
                Err(ReadError::Expected { outer, expected, found: None })
            },
            Some((token, info)) => {
                assert(toks[0] == (token@, info));
                assert(toks.skip(1) =~= self.tokens.upcoming());
                if token.same(&expected) {
                    self.read_next();
                    Ok(())
                } else {
                    self.failed = true;
                    Err(ReadError::Expected { outer, expected, found: Some((token, info)) })
                }
            },
        }
    }

    /// Reads the rest of a string whose opening quote, which stood at
    /// `opened`, has just been taken from the look-ahead.
    fn read_string(&mut self, outer: Outer, opened: TokenInfo) -> (r: Result<
        Option<Form>,
        ReadError,
    >)
        requires
            old(self).tokens.source_wf(),
            !old(self).failed,
        ensures
            final(self).wf(),
            match read_string(
                seq![(SpecToken::StringDelimiter, opened)] + old(self).tokens.upcoming(),
                outer,
            ) {
                ReadStep::End => false,
                ReadStep::Form(f, rest) => {
                    &&& r matches Ok(Some(form))
                    &&& form@ == f
                    &&& final(self).pending() == rest
                    &&& !final(self).failed
                },
                ReadStep::Fail(e) => r matches Err(err) && err@ == e && final(self).pending().len()
                    == 0,
            },
    {
        let ghost behind = self.tokens.upcoming();
        let ghost toks = seq![(SpecToken::StringDelimiter, opened)] + behind;
        self.read_next();
        match self.current.take() {
            None => self.fail(ReadError::OpenString { at: opened }),
            Some((token, info)) => {
                assert(toks[1] == (token@, info));
                assert(toks.skip(2) =~= self.tokens.upcoming());
                if matches!(token, Token::StringDelimiter) {
                    self.read_next();
                    Ok(Some(Form::StringBody(String::new())))
                } else {
                    let body = match token {
                        Token::Literal(text) => text,
                        Token::DispatchPrefixed(text) => text,
                        other => other.text(),
                    };
                    self.read_next();
                    assert(toks.skip(2) == self.pending());
                    proof {
                        if toks.len() >= 3 {
                            assert(toks.skip(2).skip(1) =~= toks.skip(3));
                        }
                    }
                    match self.assert_token(outer, Token::StringDelimiter) {
                        Ok(()) => Ok(Some(Form::StringBody(body))),
                        Err(e) => Err(e),
                    }
                }
            },
        }
    }

    /// Reads the content of a group whose opening token has just been taken
    /// from the look-ahead, and the token that closes it.
    fn read_group(&mut self, outer: Outer, closer: Token) -> (r: Result<Vec<Form>, ReadError>)
        requires
            old(self).tokens.source_wf(),
            !old(self).failed,
        ensures
            final(self).wf(),
            match read_forms(old(self).tokens.upcoming(), outer) {
                Err(e) => r matches Err(err) && err@ == e && final(self).pending().len() == 0,
                Ok((inner, rest)) => if rest.len() > 0 && rest[0].0 == closer@ {
                    &&& r matches Ok(v)
                    &&& view_forms(v@) == inner
                    &&& final(self).pending() == rest.skip(1)
                    &&& !final(self).failed
                } else {
                    &&& r matches Err(err)
                    &&& err@ == SpecReadError::Expected {
                        outer,
                        expected: closer@,
                        found: first_of(rest),
                    }
                    &&& final(self).pending().len() == 0
                },
            },
        decreases old(self).tokens.upcoming().len(), 2int,
    {
        self.read_next();
        match self.read_inner(outer) {
            Err(e) => Err(e),
            Ok(inner) => match self.assert_token(outer, closer) {
                Ok(()) => Ok(inner),
                Err(e) => Err(e),
            },
        }
    }

    /// Reads forms up to the end of the enclosing group.
    fn read_inner(&mut self, outer: Outer) -> (r: Result<Vec<Form>, ReadError>)
        requires
            old(self).wf(),
        ensures
            final(self).wf(),
            match read_forms(old(self).pending(), outer) {
                Err(e) => r matches Err(err) && err@ == e && final(self).pending().len() == 0,
                Ok((forms, rest)) => {
                    &&& r matches Ok(v)
                    &&& view_forms(v@) == forms
                    &&& final(self).pending() == rest
                    &&& final(self).failed == old(self).failed
                },
            },
        decreases old(self).pending().len(), 1int,
    {
        let mut forms: Vec<Form> = Vec::new();
        let ghost start = self.pending();
        assert(view_forms(forms@) =~= Seq::empty());
        loop
            invariant
                self.wf(),
                self.failed == old(self).failed,
                start == old(self).pending(),
                self.pending().len() <= start.len(),
                match read_forms(self.pending(), outer) {
                    Err(e) => read_forms(start, outer) == Err::<
                        (Seq<SpecForm>, Seq<(SpecToken, TokenInfo)>),
                        SpecReadError,
                    >(e),
                    Ok((fs, rest)) => read_forms(start, outer) == Ok::<
                        (Seq<SpecForm>, Seq<(SpecToken, TokenInfo)>),
                        SpecReadError,
                    >((view_forms(forms@) + fs, rest)),
                },
            decreases self.pending().len(),
        {
            let ghost before = self.pending();
            let ghost so_far = view_forms(forms@);
            proof {
                lemma_read_consumes(before, outer);
            }
            match self.read_form(outer) {
                Err(e) => {
                    return Err(e);
                },
                Ok(None) => {
                    assert(so_far + Seq::<SpecForm>::empty() =~= so_far);
                    return Ok(forms);
                },
                Ok(Some(form)) => {
                    forms.push(form);
                    assert(view_forms(forms@) =~= so_far.push(form@));
                    proof {
                        match read_forms(self.pending(), outer) {
                            Ok((fs, rest)) => {
                                assert(so_far + (seq![form@] + fs) =~= view_forms(forms@) + fs);
                            },
                            Err(e) => {},
                        }
                    }
                },
            }
        }
    }

    /// Reads the form that begins with the look-ahead token, inside a group
    /// of the kind `outer`.
    fn read_form(&mut self, outer: Outer) -> (r: Result<Option<Form>, ReadError>)
        requires
            old(self).wf(),
        ensures
            final(self).wf(),
            match read_form(old(self).pending(), outer) {
                ReadStep::End => {
                    &&& r matches Ok(None)
                    &&& final(self).pending() == old(self).pending()
                    &&& final(self).failed == old(self).failed
                },
                ReadStep::Form(f, rest) => {
                    &&& r matches Ok(Some(form))
                    &&& form@ == f
                    &&& final(self).pending() == rest
                    &&& final(self).failed == old(self).failed
                },
                ReadStep::Fail(e) => r matches Err(err) && err@ == e && final(self).pending().len()
                    == 0,
            },
        decreases old(self).pending().len(), 0int,
    {
        if self.failed {
            return Ok(None);
        }
        let ghost toks = self.pending();
        match self.current.take() {
            None => Ok(None),
            Some((token, info)) => {
                assert(toks[0] == (token@, info));
                assert(toks.skip(1) =~= self.tokens.upcoming());
                if token.is_closer() {
                    if token_ends_group(outer, &token) {
                        self.current = Some((token, info));
                        assert(self.pending() =~= toks);
                        Ok(None)
                    } else {
                        self.fail(ReadError::UnmatchedClosing { outer, closing: token, at: info })
                    }
                } else {
                    match token {
                        Token::StringDelimiter => {
                            assert(toks =~= seq![(SpecToken::StringDelimiter, info)]
                                + self.tokens.upcoming());
                            self.read_string(outer, info)
                        },
                        Token::Literal(text) => {
                            self.read_next();
                            Ok(Some(Form::Literal(text, info)))
                        },
                        Token::ListOpen => match self.read_group(Outer::InList, Token::ListClose) {
                            Ok(inner) => Ok(Some(Form::List(inner))),
                            Err(e) => Err(e),
                        },
                        Token::VectorOpen => match self.read_group(
                            Outer::InVector,
                            Token::VectorClose,
                        ) {
                            Ok(inner) => Ok(Some(Form::Vector(inner))),
                            Err(e) => Err(e),
                        },
                        Token::MapOpen => match self.read_group(Outer::InMap, Token::MapClose) {
                            Ok(inner) => Ok(Some(Form::Mapping(inner))),
                            Err(e) => Err(e),
                        },
                        Token::DispatchPrefixed(text) => match dispatch_closer(&text) {
                            Some(closer) => match self.read_group(Outer::InDispatch, closer) {
                                Ok(inner) => Ok(Some(Form::Dispatch(text, inner, info))),
                                Err(e) => Err(e),
                            },
                            None => {
                                self.read_next();
                                let inner: Vec<Form> = Vec::new();
                                assert(view_forms(inner@) =~= Seq::empty());
                                Ok(Some(Form::Dispatch(text, inner, info)))
                            },
                        },
                        _ => Ok(None),
                    }
                }
            },
        }
    }

    /// Produces the next top-level form, `None` when no token is left, or
    /// the error that makes the tokens malformed.
    pub fn next(&mut self) -> (r: Result<Option<Form>, ReadError>)
        requires
            old(self).wf(),
        ensures
            final(self).wf(),
            match read_form(old(self).pending(), Outer::TopLevel) {
                ReadStep::End => r matches Ok(None) && final(self).pending() == old(self).pending(),
                ReadStep::Form(f, rest) => {
                    &&& r matches Ok(Some(form))
                    &&& form@ == f
                    &&& final(self).pending() == rest
                },
                ReadStep::Fail(e) => r matches Err(err) && err@ == e && final(self).pending().len()
                    == 0,
            },
            r matches Ok(None) <==> old(self).pending().len() == 0,
    {
        self.read_form(Outer::TopLevel)
    }

    /// Produces all the top-level forms that are left, or the first error.
    pub fn collect(&mut self) -> (r: Result<Vec<Form>, ReadError>)
        requires
            old(self).wf(),
        ensures
            final(self).wf(),
            final(self).pending().len() == 0,
            match read_all(old(self).pending()) {
                Ok(forms) => r matches Ok(v) && view_forms(v@) == forms,
                Err(e) => r matches Err(err) && err@ == e,
            },
    {
        proof {
            lemma_top_level_reads_all(self.pending());
        }
        self.read_inner(Outer::TopLevel)
    }
}

/// The forms of a source of tokens.
pub fn read<T: TokenSource>(tokens: T) -> (forms: FormStream<T>)
    requires
        tokens.source_wf(),
    ensures
        forms.wf(),
        forms.pending() == tokens.upcoming(),
        !forms.has_failed(),
{
    let mut forms = FormStream { tokens, current: None, failed: false };
    forms.read_next();
    forms
}

} // verus!
