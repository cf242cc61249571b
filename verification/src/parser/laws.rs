//! What holds of the pipeline for every input.

use vstd::prelude::*;
use crate::parser::chars::is_digit;
use crate::parser::reader::{
    ends_group, group_form, lemma_read_consumes, opened_by, read_all, read_form, read_forms, Outer,
    ReadStep, SpecForm, SpecReadError,
};
use crate::parser::scanner::Scanner;
use crate::parser::tokenizer::{
    lex, located_tokens, step, string_end, tokens_of, SpecToken, TokenInfo,
};
use crate::parser::{
    expression_of, expressions_of, is_number_text, literal_expression, parse_one, parse_text,
    parse_tokens, ParseStep, SpecExpression, SpecParseError,
};

verus! {

/// A literal with at least one character is a number exactly when it begins
/// with a digit, or with `-` and a digit; otherwise it is a symbol.
pub proof fn law_numeric_classification(t: Seq<char>, at: TokenInfo)
    requires
        t.len() > 0,
    ensures
        expression_of(SpecForm::Literal(t, at)) == Ok::<SpecExpression, SpecParseError>(
            SpecExpression::Number(t),
        ) <==> (is_digit(t[0]) || (t.len() >= 2 && t[0] == '-' && is_digit(t[1]))),
        expression_of(SpecForm::Literal(t, at)) != Ok::<SpecExpression, SpecParseError>(
            SpecExpression::Number(t),
        ) ==> expression_of(SpecForm::Literal(t, at)) == Ok::<SpecExpression, SpecParseError>(
            SpecExpression::Symbol(t),
        ),
{
}

/// A literal token that stands alone is read as the number or the symbol
/// that its text is classified as.
pub proof fn law_literal_token(t: Seq<char>, info: TokenInfo)
    requires
        t.len() > 0,
    ensures
        parse_tokens(seq![(SpecToken::Literal(t), info)]) == Ok::<
            Seq<SpecExpression>,
            SpecParseError,
        >(
            seq![
                if is_number_text(t) {
                    SpecExpression::Number(t)
                } else {
                    SpecExpression::Symbol(t)
                },
            ],
        ),
{
    let toks = seq![(SpecToken::Literal(t), info)];
    assert(toks.skip(1) =~= Seq::empty());
    assert(parse_one(toks.skip(1)) == ParseStep::End);
    assert(parse_tokens(toks.skip(1)) == Ok::<Seq<SpecExpression>, SpecParseError>(Seq::empty()));
    let x = literal_expression(t, info)->Ok_0;
    assert(seq![x] + Seq::<SpecExpression>::empty() =~= seq![x]);
}

/// The text `body` between two quotes.
pub open spec fn quoted(body: Seq<char>) -> Seq<char> {
    seq!['"'] + body + seq!['"']
}

/// Where the search for the end of a string crosses no quote, it ends at the
/// first one behind.
proof fn lemma_string_end_at_quote(s: Seq<char>, i: int, j: int)
    requires
        0 <= i <= j < s.len(),
        s[j] == '"',
        forall|k: int| i <= k < j ==> s[k] != '"',
    ensures
        string_end(s, i) == j,
    decreases j - i,
{
    if i < j {
        lemma_string_end_at_quote(s, i + 1, j);
    }
}

/// A string keeps its body: the characters between two quotes, whatever
/// they are but a quote, come out as one literal between two string
/// delimiters, unmodified; an empty body gives the two delimiters alone.
pub proof fn law_string_body_tokens(body: Seq<char>)
    requires
        forall|k: int| 0 <= k < body.len() ==> body[k] != '"',
    ensures
        tokens_of(quoted(body)) == if body.len() > 0 {
            seq![SpecToken::StringDelimiter, SpecToken::Literal(body), SpecToken::StringDelimiter]
        } else {
            seq![SpecToken::StringDelimiter, SpecToken::StringDelimiter]
        },
{
    lemma_lex_quoted(body);
    let n = body.len() as int;
    if n > 0 {
        assert(tokens_of(quoted(body)) =~= seq![
            SpecToken::StringDelimiter,
            SpecToken::Literal(body),
            SpecToken::StringDelimiter,
        ]);
    } else {
        assert(tokens_of(quoted(body)) =~= seq![
            SpecToken::StringDelimiter,
            SpecToken::StringDelimiter,
        ]);
    }
}

/// The tokens of a quoted text, with the offsets at which they begin.
proof fn lemma_lex_quoted(body: Seq<char>)
    requires
        forall|k: int| 0 <= k < body.len() ==> body[k] != '"',
    ensures
        lex(quoted(body), 0, false) == if body.len() > 0 {
            seq![
                (SpecToken::StringDelimiter, 0int),
                (SpecToken::Literal(body), 1int),
                (SpecToken::StringDelimiter, body.len() as int + 1),
            ]
        } else {
            seq![(SpecToken::StringDelimiter, 0int), (SpecToken::StringDelimiter, 1int)]
        },
{
    let s = quoted(body);
    let n = body.len() as int;
    assert(s.len() == n + 2);
    assert(s[0] == '"');
    assert(s[n + 1] == '"');
    assert forall|k: int| 1 <= k < n + 1 implies s[k] != '"' by {
        assert(s[k] == body[k - 1]);
    }
    let closing = (SpecToken::StringDelimiter, n + 1);
    assert(step(s, n + 2, false) is None);
    assert(lex(s, n + 2, false) =~= Seq::empty());
    assert(lex(s, n + 1, true) =~= seq![closing]);
    if n > 0 {
        lemma_string_end_at_quote(s, 1, n + 1);
        assert(s.subrange(1, n + 1) =~= body);
        assert(lex(s, 1, true) =~= seq![(SpecToken::Literal(body), 1int), closing]);
        assert(lex(s, 0, false) =~= seq![
            (SpecToken::StringDelimiter, 0int),
            (SpecToken::Literal(body), 1int),
            closing,
        ]);
    } else {
        assert(lex(s, 0, false) =~= seq![(SpecToken::StringDelimiter, 0int), closing]);
    }
}

/// A string keeps its body: the text between two quotes is read as one
/// string expression that holds it unmodified, whichever scanner reads it.
pub proof fn law_string_body<S: Scanner>(body: Seq<char>)
    requires
        forall|k: int| 0 <= k < body.len() ==> body[k] != '"',
    ensures
        parse_text::<S>(quoted(body)) == Ok::<Seq<SpecExpression>, SpecParseError>(
            seq![SpecExpression::String(body)],
        ),
{
    lemma_lex_quoted(body);
    let s = quoted(body);
    let toks = located_tokens::<S>(s);
    let n = body.len() as int;
    let rest = if n > 0 {
        toks.skip(3)
    } else {
        toks.skip(2)
    };
    assert(rest =~= Seq::empty());
    assert(read_form(toks, Outer::TopLevel) == ReadStep::Form(SpecForm::StringBody(body), rest))
        by {
        if n == 0 {
            assert(body =~= Seq::empty());
        }
    }
    assert(parse_one(rest) == ParseStep::End);
    assert(parse_tokens(rest) == Ok::<Seq<SpecExpression>, SpecParseError>(Seq::empty()));
    assert(expression_of(SpecForm::StringBody(body)) == Ok::<SpecExpression, SpecParseError>(
        SpecExpression::String(body),
    ));
    assert(parse_one(toks) == ParseStep::Expression(SpecExpression::String(body), rest));
    assert(seq![SpecExpression::String(body)] + Seq::<SpecExpression>::empty() =~= seq![
        SpecExpression::String(body),
    ]);
}

/// The tokens that a form is written with: a group between its opening and
/// its closing token, a string between two quotes, an empty string as the
/// two quotes alone.
pub open spec fn render(f: SpecForm) -> Seq<SpecToken>
    decreases f, 0int,
{
    match f {
        SpecForm::Literal(t, _) => seq![SpecToken::Literal(t)],
        SpecForm::StringBody(t) => if t.len() == 0 {
            seq![SpecToken::StringDelimiter, SpecToken::StringDelimiter]
        } else {
            seq![SpecToken::StringDelimiter, SpecToken::Literal(t), SpecToken::StringDelimiter]
        },
        SpecForm::List(inner) => seq![SpecToken::ListOpen] + render_from(inner, 0)
            + seq![SpecToken::ListClose],
        SpecForm::Vector(inner) => seq![SpecToken::VectorOpen] + render_from(inner, 0)
            + seq![SpecToken::VectorClose],
        SpecForm::Mapping(inner) => seq![SpecToken::MapOpen] + render_from(inner, 0)
            + seq![SpecToken::MapClose],
        SpecForm::Dispatch(prefix, inner, _) => match opened_by(
            SpecToken::DispatchPrefixed(prefix),
        ) {
            Some((_, closer)) => seq![SpecToken::DispatchPrefixed(prefix)] + render_from(inner, 0)
                + seq![closer],
            None => seq![SpecToken::DispatchPrefixed(prefix)],
        },
    }
}

/// The tokens that the forms from `fs[k]` on are written with.
pub open spec fn render_from(fs: Seq<SpecForm>, k: int) -> Seq<SpecToken>
    decreases fs, fs.len() - k,
{
    if k < 0 || k >= fs.len() {
        Seq::empty()
    } else {
        render(fs[k]) + render_from(fs, k + 1)
    }
}

/// The tokens that a sequence of forms is written with.
pub open spec fn render_all(fs: Seq<SpecForm>) -> Seq<SpecToken> {
    render_from(fs, 0)
}

/// Whether a form can come from reading: a dispatch form whose prefix opens
/// no group holds nothing, and what a form holds can come from reading too.
pub open spec fn readable(f: SpecForm) -> bool
    decreases f, 0int,
{
    match f {
        SpecForm::Literal(_, _) => true,
        SpecForm::StringBody(_) => true,
        SpecForm::List(inner) => all_readable(inner),
        SpecForm::Vector(inner) => all_readable(inner),
        SpecForm::Mapping(inner) => all_readable(inner),
        SpecForm::Dispatch(prefix, inner, _) => all_readable(inner) && (opened_by(
            SpecToken::DispatchPrefixed(prefix),
        ) is None ==> inner.len() == 0),
    }
}

/// Whether every form of `fs` can come from reading.
pub open spec fn all_readable(fs: Seq<SpecForm>) -> bool
    decreases fs, 1int,
{
    forall|i: int| 0 <= i < fs.len() ==> readable(#[trigger] fs[i])
}

/// Whether the tokens of `toks` from index `at` on begin with `written`.
pub open spec fn spells(
    toks: Seq<(SpecToken, TokenInfo)>,
    at: int,
    written: Seq<SpecToken>,
) -> bool {
    &&& 0 <= at
    &&& at + written.len() <= toks.len()
    &&& forall|i: int| 0 <= i < written.len() ==> (#[trigger] toks[at + i]).0 == written[i]
}

/// Whether the places that the form `f` names are those of the tokens that
/// it is written with, where these begin at index `at` of `toks`.
pub open spec fn places_fit(f: SpecForm, toks: Seq<(SpecToken, TokenInfo)>, at: int) -> bool
    decreases f, 0int,
{
    match f {
        SpecForm::Literal(_, place) => 0 <= at < toks.len() && toks[at].1 == place,
        SpecForm::StringBody(_) => true,
        SpecForm::List(inner) => places_fit_from(inner, 0, toks, at + 1),
        SpecForm::Vector(inner) => places_fit_from(inner, 0, toks, at + 1),
        SpecForm::Mapping(inner) => places_fit_from(inner, 0, toks, at + 1),
        SpecForm::Dispatch(_, inner, place) => 0 <= at < toks.len() && toks[at].1 == place
            && places_fit_from(inner, 0, toks, at + 1),
    }
}

/// Whether the places that the forms from `fs[k]` on name are those of the
/// tokens that they are written with, where these begin at index `at` of
/// `toks`.
pub open spec fn places_fit_from(
    fs: Seq<SpecForm>,
    k: int,
    toks: Seq<(SpecToken, TokenInfo)>,
    at: int,
) -> bool
    decreases fs, fs.len() - k,
{
    if k < 0 || k >= fs.len() {
        true
    } else {
        places_fit(fs[k], toks, at) && places_fit_from(fs, k + 1, toks, at + render(fs[k]).len())
    }
}

/// How deep the groups of a form are nested: 0 for a form without a group.
pub open spec fn depth(f: SpecForm) -> int
    decreases f, 0int,
{
    match f {
        SpecForm::Literal(_, _) => 0,
        SpecForm::StringBody(_) => 0,
        SpecForm::List(inner) => 1 + depth_from(inner, 0),
        SpecForm::Vector(inner) => 1 + depth_from(inner, 0),
        SpecForm::Mapping(inner) => 1 + depth_from(inner, 0),
        SpecForm::Dispatch(prefix, inner, _) => if opened_by(SpecToken::DispatchPrefixed(prefix))
            is Some {
            1 + depth_from(inner, 0)
        } else {
            0
        },
    }
}

/// The greatest depth among the forms from `fs[k]` on.
pub open spec fn depth_from(fs: Seq<SpecForm>, k: int) -> int
    decreases fs, fs.len() - k,
{
    if k < 0 || k >= fs.len() {
        0
    } else if depth(fs[k]) >= depth_from(fs, k + 1) {
        depth(fs[k])
    } else {
        depth_from(fs, k + 1)
    }
}

/// By how much a token changes the number of open groups.
pub open spec fn level_change(t: SpecToken) -> int {
    if opened_by(t) is Some {
        1
    } else if t.is_closer() {
        -1
    } else {
        0
    }
}

/// The number of open groups behind the tokens from `toks[k]` on, where
/// `level` groups are open before them.
pub open spec fn level_behind(toks: Seq<SpecToken>, k: int, level: int) -> int
    decreases toks.len() - k,
{
    if k < 0 || k >= toks.len() {
        level
    } else {
        level_behind(toks, k + 1, level + level_change(toks[k]))
    }
}

/// The greatest number of groups that are open at once while the tokens
/// from `toks[k]` on go by, where `level` groups are open before them.
pub open spec fn peak(toks: Seq<SpecToken>, k: int, level: int) -> int
    decreases toks.len() - k,
{
    if k < 0 || k >= toks.len() {
        level
    } else {
        let rest = peak(toks, k + 1, level + level_change(toks[k]));
        if level >= rest {
            level
        } else {
            rest
        }
    }
}

/// How deep the delimiters of a sequence of tokens are nested.
pub open spec fn delimiter_depth(toks: Seq<SpecToken>) -> int {
    peak(toks, 0, 0)
}

/// The levels of two sequences of tokens, one behind the other.
proof fn lemma_peak_of_two(a: Seq<SpecToken>, b: Seq<SpecToken>, k: int, level: int)
    requires
        0 <= k <= a.len(),
    ensures
        level_behind(a + b, k, level) == level_behind(b, 0, level_behind(a, k, level)),
        peak(a + b, k, level) == if peak(a, k, level) >= peak(b, 0, level_behind(a, k, level)) {
            peak(a, k, level)
        } else {
            peak(b, 0, level_behind(a, k, level))
        },
        peak(b, 0, level) >= level,
    decreases a.len() - k, b.len(),
{
    if b.len() > 0 {
        lemma_peak_of_two(a, Seq::empty(), a.len() as int, level);
    }
    if k < a.len() {
        assert((a + b)[k] == a[k]);
        lemma_peak_of_two(a, b, k + 1, level + level_change(a[k]));
    } else {
        lemma_peak_shift(a, b, 0, level);
    }
}

/// The levels of a sequence of tokens behind another one are its own.
proof fn lemma_peak_shift(a: Seq<SpecToken>, b: Seq<SpecToken>, k: int, level: int)
    requires
        0 <= k <= b.len(),
    ensures
        level_behind(a + b, a.len() + k, level) == level_behind(b, k, level),
        peak(a + b, a.len() + k, level) == peak(b, k, level),
    decreases b.len() - k,
{
    if k < b.len() {
        assert((a + b)[a.len() + k] == b[k]);
        lemma_peak_shift(a, b, k + 1, level + level_change(b[k]));
    }
}

/// The tokens of a group nest one level deeper than those of its content.
proof fn lemma_peak_of_group(
    opener: SpecToken,
    content: Seq<SpecToken>,
    closer: SpecToken,
    level: int,
    inner_depth: int,
)
    requires
        opened_by(opener) is Some,
        closer.is_closer(),
        inner_depth >= 0,
        level_behind(content, 0, level + 1) == level + 1,
        peak(content, 0, level + 1) == level + 1 + inner_depth,
    ensures
        level_behind(seq![opener] + content + seq![closer], 0, level) == level,
        peak(seq![opener] + content + seq![closer], 0, level) == level + 1 + inner_depth,
{
    let all = seq![opener] + content + seq![closer];
    let tail = content + seq![closer];
    assert(all =~= seq![opener] + tail);
    lemma_peak_of_two(seq![opener], tail, 0, level);
    lemma_peak_of_two(content, seq![closer], 0, level + 1);
    let one = seq![opener];
    assert(level_behind(one, 1, level + 1) == level + 1);
    assert(level_behind(one, 0, level) == level + 1);
    assert(peak(one, 1, level + 1) == level + 1);
    assert(peak(one, 0, level) == level + 1);
    let last = seq![closer];
    assert(level_behind(last, 1, level) == level);
    assert(level_behind(last, 0, level + 1) == level);
    assert(peak(last, 1, level) == level);
    assert(peak(last, 0, level + 1) == level + 1);
}

/// The tokens of a form leave as many groups open as they find, and nest
/// as deep as the form does.
pub proof fn lemma_depth_of_form(f: SpecForm, level: int)
    ensures
        depth(f) >= 0,
        level_behind(render(f), 0, level) == level,
        peak(render(f), 0, level) == level + depth(f),
    decreases f, 0int,
{
    match f {
        SpecForm::Literal(t, _) => {
            let r = render(f);
            assert(level_behind(r, 1, level) == level);
            assert(peak(r, 1, level) == level);
        },
        SpecForm::StringBody(t) => {
            let r = render(f);
            if t.len() == 0 {
                assert(level_behind(r, 2, level) == level);
                assert(level_behind(r, 1, level) == level);
                assert(peak(r, 2, level) == level);
                assert(peak(r, 1, level) == level);
            } else {
                assert(level_behind(r, 3, level) == level);
                assert(level_behind(r, 2, level) == level);
                assert(level_behind(r, 1, level) == level);
                assert(peak(r, 3, level) == level);
                assert(peak(r, 2, level) == level);
                assert(peak(r, 1, level) == level);
            }
        },
        SpecForm::List(inner) => {
            lemma_depth_of_forms(inner, 0, level + 1);
            lemma_peak_of_group(
                SpecToken::ListOpen,
                render_from(inner, 0),
                SpecToken::ListClose,
                level,
                depth_from(inner, 0),
            );
        },
        SpecForm::Vector(inner) => {
            lemma_depth_of_forms(inner, 0, level + 1);
            lemma_peak_of_group(
                SpecToken::VectorOpen,
                render_from(inner, 0),
                SpecToken::VectorClose,
                level,
                depth_from(inner, 0),
            );
        },
        SpecForm::Mapping(inner) => {
            lemma_depth_of_forms(inner, 0, level + 1);
            lemma_peak_of_group(
                SpecToken::MapOpen,
                render_from(inner, 0),
                SpecToken::MapClose,
                level,
                depth_from(inner, 0),
            );
        },
        SpecForm::Dispatch(prefix, inner, _) => {
            match opened_by(SpecToken::DispatchPrefixed(prefix)) {
                Some((_, closer)) => {
                    lemma_depth_of_forms(inner, 0, level + 1);
                    lemma_peak_of_group(
                        SpecToken::DispatchPrefixed(prefix),
                        render_from(inner, 0),
                        closer,
                        level,
                        depth_from(inner, 0),
                    );
                },
                None => {
                    let r = render(f);
                    assert(level_behind(r, 1, level) == level);
                    assert(peak(r, 1, level) == level);
                },
            }
        },
    }
}

/// The tokens of a sequence of forms leave as many groups open as they
/// find, and nest as deep as the deepest of the forms.
pub proof fn lemma_depth_of_forms(fs: Seq<SpecForm>, k: int, level: int)
    requires
        0 <= k <= fs.len(),
    ensures
        depth_from(fs, k) >= 0,
        level_behind(render_from(fs, k), 0, level) == level,
        peak(render_from(fs, k), 0, level) == level + depth_from(fs, k),
    decreases fs, fs.len() - k,
{
    if k < fs.len() {
        lemma_depth_of_form(fs[k], level);
        lemma_depth_of_forms(fs, k + 1, level);
        lemma_peak_of_two(render(fs[k]), render_from(fs, k + 1), 0, level);
    }
}

/// A form is written with at least one token, and the first is no closing
/// token.
pub proof fn lemma_render_begins(f: SpecForm)
    ensures
        render(f).len() > 0,
        !render(f)[0].is_closer(),
{
}

/// The tokens that a readable form is written with are read as that form.
pub proof fn lemma_read_rendered_form(
    f: SpecForm,
    toks: Seq<(SpecToken, TokenInfo)>,
    at: int,
    outer: Outer,
)
    requires
        readable(f),
        spells(toks, at, render(f)),
        places_fit(f, toks, at),
    ensures
        read_form(toks.skip(at), outer) == ReadStep::Form(f, toks.skip(at + render(f).len())),
    decreases f, 1int,
{
    let s = toks.skip(at);
    let written = render(f);
    let n = written.len() as int;
    lemma_render_begins(f);
    assert(s[0] == toks[at + 0]);
    assert(s.skip(1) =~= toks.skip(at + 1));
    match f {
        SpecForm::Literal(t, _) => {},
        SpecForm::StringBody(t) => {
            assert(s[1] == toks[at + 1]);
            assert(s.skip(2) =~= toks.skip(at + 2));
            if t.len() == 0 {
                assert(t =~= Seq::empty());
            } else {
                assert(s[2] == toks[at + 2]);
                assert(s.skip(3) =~= toks.skip(at + 3));
            }
        },
        SpecForm::List(inner) => {
            lemma_read_rendered_group(f, inner, toks, at, outer);
        },
        SpecForm::Vector(inner) => {
            lemma_read_rendered_group(f, inner, toks, at, outer);
        },
        SpecForm::Mapping(inner) => {
            lemma_read_rendered_group(f, inner, toks, at, outer);
        },
        SpecForm::Dispatch(prefix, inner, _) => {
            if opened_by(SpecToken::DispatchPrefixed(prefix)) is Some {
                lemma_read_rendered_group(f, inner, toks, at, outer);
            } else {
                assert(inner =~= Seq::empty());
            }
        },
    }
}

/// The tokens that a readable group is written with are read as that
/// group.
proof fn lemma_read_rendered_group(
    f: SpecForm,
    inner: Seq<SpecForm>,
    toks: Seq<(SpecToken, TokenInfo)>,
    at: int,
    outer: Outer,
)
    requires
        readable(f),
        spells(toks, at, render(f)),
        places_fit(f, toks, at),
        match f {
            SpecForm::List(x) => x == inner,
            SpecForm::Vector(x) => x == inner,
            SpecForm::Mapping(x) => x == inner,
            SpecForm::Dispatch(prefix, x, _) => x == inner && opened_by(
                SpecToken::DispatchPrefixed(prefix),
            ) is Some,
            _ => false,
        },
    ensures
        read_form(toks.skip(at), outer) == ReadStep::Form(f, toks.skip(at + render(f).len())),
    decreases f, 0int,
{
    let s = toks.skip(at);
    let written = render(f);
    let content = render_from(inner, 0);
    let m = content.len() as int;
    let opener = written[0];
    let (inside, closer) = opened_by(opener)->Some_0;
    assert(written =~= seq![opener] + content + seq![closer]);
    assert(s[0] == toks[at + 0]);
    assert(s.skip(1) =~= toks.skip(at + 1));
    assert(spells(toks, at + 1, content)) by {
        assert forall|i: int| 0 <= i < content.len() implies (#[trigger] toks[at + 1 + i]).0
            == content[i] by {
            assert(toks[at + (i + 1)].0 == written[i + 1]);
        }
    }
    assert(toks[at + (m + 1)].0 == written[m + 1]);
    assert(closer.is_closer() && ends_group(inside, closer));
    lemma_read_rendered_forms(inner, 0, toks, at + 1, inside);
    assert(inner.skip(0) =~= inner);
    let rest = toks.skip(at + 1 + m);
    assert(rest[0] == toks[at + 1 + m]);
    assert(rest.skip(1) =~= toks.skip(at + written.len()));
    assert(group_form(opener, inner, toks[at].1) == f);
}

/// The tokens that readable forms are written with are read as those
/// forms, where the tokens end behind them or a token follows that closes
/// the enclosing group.
pub proof fn lemma_read_rendered_forms(
    fs: Seq<SpecForm>,
    k: int,
    toks: Seq<(SpecToken, TokenInfo)>,
    at: int,
    outer: Outer,
)
    requires
        0 <= k <= fs.len(),
        all_readable(fs),
        spells(toks, at, render_from(fs, k)),
        places_fit_from(fs, k, toks, at),
        at + render_from(fs, k).len() == toks.len() || (toks[at + render_from(
            fs,
            k,
        ).len()].0.is_closer() && ends_group(outer, toks[at + render_from(fs, k).len()].0)),
    ensures
        read_forms(toks.skip(at), outer) == Ok::<
            (Seq<SpecForm>, Seq<(SpecToken, TokenInfo)>),
            SpecReadError,
        >((fs.skip(k), toks.skip(at + render_from(fs, k).len()))),
    decreases fs, fs.len() - k,
{
    let s = toks.skip(at);
    if k == fs.len() {
        assert(fs.skip(k) =~= Seq::empty());
        if s.len() > 0 {
            assert(s[0] == toks[at + 0]);
        }
    } else {
        let f = fs[k];
        let first = render(f);
        let others = render_from(fs, k + 1);
        let a = first.len() as int;
        lemma_render_begins(f);
        assert(readable(f));
        assert(spells(toks, at, first)) by {
            assert forall|i: int| 0 <= i < first.len() implies (#[trigger] toks[at + i]).0
                == first[i] by {
                assert((first + others)[i] == first[i]);
            }
        }
        assert(spells(toks, at + a, others)) by {
            assert forall|i: int| 0 <= i < others.len() implies (#[trigger] toks[at + a + i]).0
                == others[i] by {
                assert(toks[at + (a + i)].0 == (first + others)[a + i]);
            }
        }
        lemma_read_rendered_form(f, toks, at, outer);
        lemma_read_rendered_forms(fs, k + 1, toks, at + a, outer);
        assert(seq![f] + fs.skip(k + 1) =~= fs.skip(k));
    }
}

/// Balanced delimiters are read without an error: the tokens that a
/// sequence of readable forms is written with, at the places that the
/// forms name for their literals and dispatch forms, are read as those
/// forms; and the delimiters of the tokens are nested as deep as the groups
/// of the forms.
pub proof fn law_delimiter_balance(fs: Seq<SpecForm>, toks: Seq<(SpecToken, TokenInfo)>)
    requires
        all_readable(fs),
        toks.len() == render_all(fs).len(),
        forall|i: int| 0 <= i < toks.len() ==> (#[trigger] toks[i]).0 == render_all(fs)[i],
        places_fit_from(fs, 0, toks, 0),
    ensures
        read_all(toks) == Ok::<Seq<SpecForm>, SpecReadError>(fs),
        delimiter_depth(render_all(fs)) == depth_from(fs, 0),
{
    assert(spells(toks, 0, render_from(fs, 0)));
    lemma_read_rendered_forms(fs, 0, toks, 0, Outer::TopLevel);
    assert(toks.skip(0) =~= toks);
    assert(fs.skip(0) =~= fs);
    lemma_depth_of_forms(fs, 0, 0);
}

/// What is read can be written: a form that comes from reading is
/// readable.
pub proof fn law_read_form_is_readable(toks: Seq<(SpecToken, TokenInfo)>, outer: Outer)
    ensures
        read_form(toks, outer) matches ReadStep::Form(f, _) ==> readable(f),
    decreases toks.len(), 0int,
{
    if toks.len() > 0 {
        match opened_by(toks[0].0) {
            Some((inside, _)) => {
                law_read_forms_are_readable(toks.skip(1), inside);
            },
            None => {},
        }
    }
}

/// What is read can be written: the forms that come from reading are
/// readable.
pub proof fn law_read_forms_are_readable(toks: Seq<(SpecToken, TokenInfo)>, outer: Outer)
    ensures
        read_forms(toks, outer) matches Ok((fs, _)) ==> all_readable(fs),
    decreases toks.len(), 1int,
{
    law_read_form_is_readable(toks, outer);
    lemma_read_consumes(toks, outer);
    match read_form(toks, outer) {
        ReadStep::Form(f, rest) => {
            law_read_forms_are_readable(rest, outer);
            match read_forms(rest, outer) {
                Ok((fs, _)) => {
                    let all = seq![f] + fs;
                    assert forall|i: int| 0 <= i < all.len() implies readable(
                        #[trigger] all[i],
                    ) by {
                        if i > 0 {
                            assert(all[i] == fs[i - 1]);
                        }
                    }
                },
                Err(_) => {},
            }
        },
        _ => {},
    }
}

/// No form makes the builder raise a structural error: what it rejects is a
/// dispatch prefix without a meaning, or a literal without characters.
pub proof fn law_builder_raises_no_structural_error(f: SpecForm)
    ensures
        expression_of(f) matches Err(e) ==> e is UnknownDispatch || e is EmptyLiteral,
    decreases f, 0int,
{
    match f {
        SpecForm::List(inner) => lemma_builder_errors(inner),
        SpecForm::Vector(inner) => lemma_builder_errors(inner),
        SpecForm::Mapping(inner) => lemma_builder_errors(inner),
        SpecForm::Dispatch(_, inner, _) => lemma_builder_errors(inner),
        _ => {},
    }
}

/// No sequence of forms makes the builder raise a structural error.
pub proof fn lemma_builder_errors(fs: Seq<SpecForm>)
    ensures
        expressions_of(fs) matches Err(e) ==> e is UnknownDispatch || e is EmptyLiteral,
    decreases fs, 1int,
{
    if fs.len() > 0 {
        lemma_builder_errors(fs.drop_last());
        law_builder_raises_no_structural_error(fs.last());
    }
}

} // verus!
