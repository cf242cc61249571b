//! Separators and comments are transparent: what holds of the tokens of a
//! text when blank space is put into it.

use vstd::prelude::*;
use crate::parser::chars::{is_delimiter, is_opener, is_separator};
use crate::parser::reader::{
    lemma_read_consumes, opened_by, read_form, read_forms, Outer, ReadStep, SpecForm,
};
use crate::parser::scanner::{next_line_start, Scanner};
use crate::parser::{
    expression_of, expressions_of, parse_text, parse_tokens, SpecExpression, SpecParseError,
};
use crate::parser::tokenizer::{
    ends_word, is_fused_dispatch, lemma_next_line_start_bounds, lemma_skip_blank_bounds,
    lemma_step_bounds, lemma_string_end_bounds, lemma_word_end_bounds, located_tokens,
    skip_blank, starts_comment, step, string_end, tokens_from, tokens_of, word_end, SpecToken,
    Step, TokenInfo,
};

verus! {

/// The tokens from an index on are the next token and the tokens behind
/// it.
pub proof fn lemma_tokens_unfold(s: Seq<char>, i: int, in_string: bool)
    requires
        0 <= i,
    ensures
        tokens_from(s, i, in_string) == match step(s, i, in_string) {
            None => Seq::<SpecToken>::empty(),
            Some(st) => seq![st.token] + tokens_from(s, st.end, st.in_string),
        },
{
    match step(s, i, in_string) {
        None => {
            assert(tokens_from(s, i, in_string) =~= Seq::<SpecToken>::empty());
        },
        Some(st) => {
            assert(tokens_from(s, i, in_string) =~= seq![st.token] + tokens_from(
                s,
                st.end,
                st.in_string,
            ));
        },
    }
}

/// Whether `t` from index `i + d` on is `s` from index `i` on.
pub open spec fn shifted(s: Seq<char>, t: Seq<char>, i: int, d: int) -> bool {
    &&& 0 <= i
    &&& 0 <= i + d
    &&& t.len() == s.len() + d
    &&& forall|k: int| i <= k < s.len() ==> #[trigger] t[k + d] == s[k]
}

/// Whether a comment that begins with `#!` is recognised alike at index
/// `i` of `s` and at index `i + d` of `t`: the characters before the two
/// are both separators or both none, or no `#!` stands there.
pub open spec fn same_start(s: Seq<char>, t: Seq<char>, i: int, d: int) -> bool {
    ||| (i == 0 || is_separator(s[i - 1])) == (i + d == 0 || is_separator(t[i + d - 1]))
    ||| !(i + 1 < s.len() && s[i] == '#' && s[i + 1] == '!')
}

proof fn lemma_shift_line(s: Seq<char>, t: Seq<char>, i: int, d: int, k: int)
    requires
        shifted(s, t, i, d),
        i <= k,
    ensures
        next_line_start(t, k + d) == next_line_start(s, k) + d,
    decreases s.len() - k,
{
    if k < s.len() {
        assert(t[k + d] == s[k]);
        if s[k] != '\n' {
            lemma_shift_line(s, t, i, d, k + 1);
        }
    }
}

proof fn lemma_shift_ends_word(s: Seq<char>, t: Seq<char>, i: int, d: int, k: int)
    requires
        shifted(s, t, i, d),
        i <= k < s.len(),
    ensures
        ends_word(t, k + d) == ends_word(s, k),
        is_fused_dispatch(t, k + d) == is_fused_dispatch(s, k),
{
    assert(t[k + d] == s[k]);
    if k + 1 < s.len() {
        assert(t[k + 1 + d] == s[k + 1]);
    }
}

proof fn lemma_shift_word(s: Seq<char>, t: Seq<char>, i: int, d: int, k: int)
    requires
        shifted(s, t, i, d),
        i <= k,
    ensures
        word_end(t, k + d) == word_end(s, k) + d,
    decreases s.len() - k,
{
    if k < s.len() {
        lemma_shift_ends_word(s, t, i, d, k);
        if !ends_word(s, k) {
            lemma_shift_word(s, t, i, d, k + 1);
        }
    }
}

proof fn lemma_shift_string(s: Seq<char>, t: Seq<char>, i: int, d: int, k: int)
    requires
        shifted(s, t, i, d),
        i <= k,
    ensures
        string_end(t, k + d) == string_end(s, k) + d,
    decreases s.len() - k,
{
    if k < s.len() {
        assert(t[k + d] == s[k]);
        if s[k] != '"' {
            lemma_shift_string(s, t, i, d, k + 1);
        }
    }
}

proof fn lemma_shift_comment(s: Seq<char>, t: Seq<char>, i: int, d: int, k: int)
    requires
        shifted(s, t, i, d),
        i <= k < s.len(),
        k == i ==> same_start(s, t, i, d),
    ensures
        starts_comment(t, k + d) == starts_comment(s, k),
{
    assert(t[k + d] == s[k]);
    if k + 1 < s.len() {
        assert(t[k + 1 + d] == s[k + 1]);
    }
    if k > i {
        assert(t[k - 1 + d] == s[k - 1]);
    }
}

proof fn lemma_shift_blank(s: Seq<char>, t: Seq<char>, i: int, d: int, k: int)
    requires
        shifted(s, t, i, d),
        i <= k,
        k == i ==> same_start(s, t, i, d),
    ensures
        skip_blank(t, k + d) == skip_blank(s, k) + d,
    decreases s.len() - k,
{
    if k < s.len() {
        assert(t[k + d] == s[k]);
        lemma_shift_comment(s, t, i, d, k);
        if is_separator(s[k]) {
            lemma_shift_blank(s, t, i, d, k + 1);
        } else if starts_comment(s, k) {
            lemma_next_line_start_bounds(s, k);
            lemma_shift_line(s, t, i, d, k);
            lemma_shift_blank(s, t, i, d, next_line_start(s, k));
        }
    }
}

/// A step in a text that is another one moved by `d` is the step in the
/// other one, moved by `d`.
pub proof fn lemma_shift_step(s: Seq<char>, t: Seq<char>, i: int, d: int, k: int, in_string: bool)
    requires
        shifted(s, t, i, d),
        i <= k,
        k == i ==> same_start(s, t, i, d),
    ensures
        match step(s, k, in_string) {
            None => step(t, k + d, in_string) is None,
            Some(st) => step(t, k + d, in_string) == Some(
                Step {
                    token: st.token,
                    start: st.start + d,
                    end: st.end + d,
                    in_string: st.in_string,
                },
            ),
        },
{
    if in_string {
        if k < s.len() {
            assert(t[k + d] == s[k]);
            if s[k] != '"' {
                lemma_shift_string(s, t, i, d, k);
                lemma_string_end_bounds(s, k);
                let e = string_end(s, k);
                assert(t.subrange(k + d, e + d) =~= s.subrange(k, e)) by {
                    assert forall|x: int| 0 <= x < e - k implies t.subrange(k + d, e + d)[x]
                        == s.subrange(k, e)[x] by {
                        assert(t[(k + x) + d] == s[k + x]);
                    }
                }
            }
        }
    } else if k <= s.len() {
        lemma_shift_blank(s, t, i, d, k);
        lemma_skip_blank_bounds(s, k);
        let j = skip_blank(s, k);
        if j < s.len() {
            assert(t[j + d] == s[j]);
            lemma_shift_ends_word(s, t, i, d, j);
            if s[j] == '"' || is_delimiter(s[j]) {
            } else if is_fused_dispatch(s, j) {
                assert(t.subrange(j + d, j + 2 + d) =~= s.subrange(j, j + 2)) by {
                    assert(t[(j + 1) + d] == s[j + 1]);
                }
            } else {
                lemma_shift_word(s, t, i, d, j + 1);
                lemma_word_end_bounds(s, j + 1);
                let e = word_end(s, j + 1);
                assert(t.subrange(j + d, e + d) =~= s.subrange(j, e)) by {
                    assert forall|x: int| 0 <= x < e - j implies t.subrange(j + d, e + d)[x]
                        == s.subrange(j, e)[x] by {
                        assert(t[(j + x) + d] == s[j + x]);
                    }
                }
            }
        }
    } else {
        assert(skip_blank(s, k) == k);
        assert(skip_blank(t, k + d) == k + d);
    }
}

/// The tokens of a text that is another one moved by `d` are the tokens of
/// the other one.
pub proof fn lemma_shift_tokens(s: Seq<char>, t: Seq<char>, i: int, d: int, k: int, in_string: bool)
    requires
        shifted(s, t, i, d),
        i <= k,
        k == i ==> same_start(s, t, i, d),
    ensures
        tokens_from(t, k + d, in_string) == tokens_from(s, k, in_string),
    decreases s.len() - k,
{
    lemma_shift_step(s, t, i, d, k, in_string);
    lemma_tokens_unfold(s, k, in_string);
    lemma_tokens_unfold(t, k + d, in_string);
    lemma_step_bounds(s, k, in_string);
    match step(s, k, in_string) {
        None => {},
        Some(st) => {
            lemma_shift_tokens(s, t, i, d, st.end, st.in_string);
        },
    }
}

/// Whether `s` and `t` are the same before index `p`, and `t` goes on
/// there with a separator or the `;` of a comment.
pub open spec fn same_before(s: Seq<char>, t: Seq<char>, p: int) -> bool {
    &&& 0 <= p <= s.len()
    &&& p < t.len()
    &&& forall|k: int| 0 <= k < p ==> #[trigger] t[k] == s[k]
    &&& is_separator(t[p]) || t[p] == ';'
}

proof fn lemma_prefix_line(s: Seq<char>, t: Seq<char>, p: int, k: int)
    requires
        same_before(s, t, p),
        0 <= k,
        next_line_start(s, k) <= p,
        k < p,
        s[next_line_start(s, k) - 1] == '\n',
    ensures
        next_line_start(t, k) == next_line_start(s, k),
    decreases p - k,
{
    assert(t[k] == s[k]);
    if s[k] != '\n' {
        lemma_next_line_start_bounds(s, k);
        if k + 1 < s.len() {
            lemma_next_line_start_bounds(s, k + 1);
        }
        lemma_prefix_line(s, t, p, k + 1);
    }
}

proof fn lemma_prefix_comment(s: Seq<char>, t: Seq<char>, p: int, k: int)
    requires
        same_before(s, t, p),
        0 <= k < p,
        k + 1 < p || !starts_comment(s, k),
    ensures
        starts_comment(t, k) == starts_comment(s, k),
{
    assert(t[k] == s[k]);
    if k > 0 {
        assert(t[k - 1] == s[k - 1]);
    }
    if k + 1 < p {
        assert(t[k + 1] == s[k + 1]);
    }
}

proof fn lemma_prefix_blank(s: Seq<char>, t: Seq<char>, p: int, k: int)
    requires
        same_before(s, t, p),
        0 <= k,
        skip_blank(s, k) < p,
    ensures
        skip_blank(t, k) == skip_blank(s, k),
    decreases s.len() - k,
{
    if k < s.len() {
        lemma_skip_blank_bounds(s, k);
        assert(t[k] == s[k]);
        if is_separator(s[k]) {
            lemma_prefix_blank(s, t, p, k + 1);
        } else if starts_comment(s, k) {
            lemma_next_line_start_bounds(s, k);
            let n = next_line_start(s, k);
            lemma_skip_blank_bounds(s, n);
            lemma_prefix_comment(s, t, p, k);
            lemma_line_break_found(s, k);
            lemma_prefix_line(s, t, p, k);
            lemma_prefix_blank(s, t, p, n);
        } else {
            lemma_prefix_comment(s, t, p, k);
        }
    }
}

/// Where the next line begins before the end of the text, a line break
/// stands before it.
proof fn lemma_line_break_found(s: Seq<char>, k: int)
    requires
        0 <= k < s.len(),
        next_line_start(s, k) < s.len(),
    ensures
        s[next_line_start(s, k) - 1] == '\n',
    decreases s.len() - k,
{
    if s[k] != '\n' {
        if k + 1 >= s.len() {
            assert(next_line_start(s, k + 1) == s.len());
        }
        lemma_line_break_found(s, k + 1);
    }
}

proof fn lemma_prefix_ends_word(s: Seq<char>, t: Seq<char>, p: int, k: int)
    requires
        same_before(s, t, p),
        0 <= k < p,
        !(k + 1 == p && is_fused_dispatch(s, k)),
    ensures
        ends_word(t, k) == ends_word(s, k),
        is_fused_dispatch(t, k) == is_fused_dispatch(s, k),
{
    assert(t[k] == s[k]);
    if k + 1 < p {
        assert(t[k + 1] == s[k + 1]);
    }
}

proof fn lemma_prefix_word(s: Seq<char>, t: Seq<char>, p: int, k: int)
    requires
        same_before(s, t, p),
        0 <= k,
        word_end(s, k) <= p,
        !(word_end(s, k) + 1 == p && is_fused_dispatch(s, word_end(s, k))),
    ensures
        word_end(t, k) == word_end(s, k),
    decreases s.len() - k,
{
    if k < s.len() {
        lemma_word_end_bounds(s, k);
        if k < p {
            if ends_word(s, k) {
                lemma_prefix_ends_word(s, t, p, k);
            } else {
                lemma_word_end_bounds(s, k + 1);
                assert(t[k] == s[k]);
                if k + 1 < p {
                    assert(t[k + 1] == s[k + 1]);
                }
                lemma_prefix_word(s, t, p, k + 1);
            }
        }
    }
}

proof fn lemma_prefix_string(s: Seq<char>, t: Seq<char>, p: int, k: int)
    requires
        same_before(s, t, p),
        0 <= k,
        string_end(s, k) < p,
    ensures
        string_end(t, k) == string_end(s, k),
    decreases s.len() - k,
{
    if k < s.len() {
        lemma_string_end_bounds(s, k);
        assert(t[k] == s[k]);
        if s[k] != '"' {
            lemma_string_end_bounds(s, k + 1);
            lemma_prefix_string(s, t, p, k + 1);
        }
    }
}

/// A step that ends at or before the index up to which two texts are the
/// same is a step of both, unless it reads the body of a string up to that
/// index, or ends before a `#` that an opening delimiter follows at that
/// index.
pub proof fn lemma_prefix_step(s: Seq<char>, t: Seq<char>, p: int, i: int, in_string: bool)
    requires
        same_before(s, t, p),
        0 <= i,
        step(s, i, in_string) matches Some(st) && st.end <= p && !(in_string && st.in_string
            && st.end == p) && !(st.end + 1 == p && is_fused_dispatch(s, st.end)),
    ensures
        step(t, i, in_string) == step(s, i, in_string),
{
    let st = step(s, i, in_string)->Some_0;
    lemma_step_bounds(s, i, in_string);
    if in_string {
        assert(t[i] == s[i]);
        if s[i] != '"' {
            lemma_prefix_string(s, t, p, i);
            assert(t.subrange(i, st.end) =~= s.subrange(i, st.end));
        }
    } else {
        lemma_skip_blank_bounds(s, i);
        lemma_prefix_blank(s, t, p, i);
        let j = skip_blank(s, i);
        assert(t[j] == s[j]);
        if s[j] == '"' || is_delimiter(s[j]) {
        } else if is_fused_dispatch(s, j) {
            assert(t[j + 1] == s[j + 1]);
            assert(t.subrange(j, j + 2) =~= s.subrange(j, j + 2));
        } else {
            lemma_word_end_bounds(s, j + 1);
            lemma_prefix_word(s, t, p, j + 1);
            if j + 1 < p {
                assert(t[j + 1] == s[j + 1]);
            }
            assert(!is_fused_dispatch(t, j));
            assert(t.subrange(j, st.end) =~= s.subrange(j, st.end));
        }
    }
}

/// Whether the tokenizer, begun at index `i` of `s`, inside a string or
/// not, comes to stand at index `p` right behind a token and outside a
/// string.
pub open spec fn boundary_from(s: Seq<char>, i: int, in_string: bool, p: int) -> bool
    decreases s.len() - i,
{
    if i < 0 || i > p {
        false
    } else if i == p {
        !in_string
    } else {
        match step(s, i, in_string) {
            None => false,
            Some(st) => {
                proof {
                    lemma_step_bounds(s, i, in_string);
                }
                boundary_from(s, st.end, st.in_string, p)
            },
        }
    }
}

/// Whether index `p` of `s` lies between two tokens: at the start of the
/// text, or right behind a token, and outside of a string.
pub open spec fn is_token_boundary(s: Seq<char>, p: int) -> bool {
    boundary_from(s, 0, false, p)
}

/// Whether every character of `w` is a separator.
pub open spec fn all_separators(w: Seq<char>) -> bool {
    forall|k: int| 0 <= k < w.len() ==> is_separator(#[trigger] w[k])
}

/// Separators are skipped.
pub proof fn lemma_separators_skipped(s: Seq<char>, i: int, n: int)
    requires
        0 <= i,
        0 <= n,
        i + n <= s.len(),
        forall|k: int| i <= k < i + n ==> is_separator(#[trigger] s[k]),
    ensures
        skip_blank(s, i) == skip_blank(s, i + n),
    decreases n,
{
    if n > 0 {
        assert(is_separator(s[i]));
        lemma_separators_skipped(s, i + 1, n - 1);
    }
}

/// The tokens from two indices on are the same where the same token is the
/// next one.
pub proof fn lemma_same_blank_same_tokens(s: Seq<char>, i: int, j: int)
    requires
        0 <= i,
        0 <= j,
        skip_blank(s, i) == skip_blank(s, j),
    ensures
        tokens_from(s, i, false) == tokens_from(s, j, false),
{
    lemma_tokens_unfold(s, i, false);
    lemma_tokens_unfold(s, j, false);
}

/// The index between `#` and the opening delimiter that is fused with it
/// is no boundary between two tokens.
proof fn lemma_fused_dispatch_is_no_boundary(s: Seq<char>, e: int, in_string: bool)
    requires
        0 <= e,
        is_fused_dispatch(s, e),
    ensures
        !boundary_from(s, e, in_string, e + 1),
{
    assert(s[e] == '#');
    assert(is_opener(s[e + 1]));
    assert(s[e + 1] != '"' && s[e + 1] != '!');
    lemma_step_bounds(s, e, in_string);
    if in_string {
        assert(string_end(s, e) == string_end(s, e + 1));
        assert(string_end(s, e + 1) == string_end(s, e + 2));
        lemma_string_end_bounds(s, e + 2);
        let st = step(s, e, true)->Some_0;
        assert(st.end == string_end(s, e));
        assert(!boundary_from(s, st.end, st.in_string, e + 1));
    } else {
        assert(!is_separator(s[e]));
        assert(!starts_comment(s, e));
        assert(skip_blank(s, e) == e);
        let st = step(s, e, false)->Some_0;
        assert(st.end == e + 2);
        assert(!boundary_from(s, st.end, st.in_string, e + 1));
    }
}

/// Whether nothing but separators and comments stands from index `i` up
/// to index `p` of `s`, and no comment goes on at `p`: each comment ends
/// with its line break at or before `p`, or with the text.
pub open spec fn blank_between(s: Seq<char>, i: int, p: int) -> bool
    decreases p - i,
{
    if i < 0 || i > p || p > s.len() {
        false
    } else if i == p {
        true
    } else if is_separator(s[i]) {
        blank_between(s, i + 1, p)
    } else if starts_comment(s, i) {
        proof {
            lemma_next_line_start_bounds(s, i);
        }
        let n = next_line_start(s, i);
        n <= p && (s[n - 1] == '\n' || n == s.len()) && blank_between(s, n, p)
    } else {
        false
    }
}

/// Whether `t` is `s` with `d` separators put in at index `p`.
pub open spec fn separators_put_in(s: Seq<char>, t: Seq<char>, p: int, d: int) -> bool {
    &&& 0 <= p <= s.len()
    &&& d >= 1
    &&& shifted(s, t, p, d)
    &&& forall|k: int| 0 <= k < p ==> #[trigger] t[k] == s[k]
    &&& forall|k: int| p <= k < p + d ==> is_separator(#[trigger] t[k])
}

/// Blank space is skipped.
proof fn lemma_blank_skipped(s: Seq<char>, i: int, p: int)
    requires
        blank_between(s, i, p),
    ensures
        skip_blank(s, i) == skip_blank(s, p),
    decreases p - i,
{
    if i < p {
        if is_separator(s[i]) {
            lemma_blank_skipped(s, i + 1, p);
        } else {
            lemma_next_line_start_bounds(s, i);
            lemma_blank_skipped(s, next_line_start(s, i), p);
        }
    }
}

/// Blank space ends with a separator, or with the text.
proof fn lemma_blank_ends(s: Seq<char>, i: int, p: int)
    requires
        blank_between(s, i, p),
        i < p,
    ensures
        is_separator(s[p - 1]) || p == s.len(),
    decreases p - i,
{
    if is_separator(s[i]) {
        if i + 1 < p {
            lemma_blank_ends(s, i + 1, p);
        }
    } else {
        lemma_next_line_start_bounds(s, i);
        let n = next_line_start(s, i);
        if n < p {
            lemma_blank_ends(s, n, p);
        }
    }
}

/// Where no line break stands from index `i` up to index `p`, the line of
/// `i` ends where the line of `p` ends.
proof fn lemma_line_goes_on(s: Seq<char>, i: int, p: int)
    requires
        0 <= i <= p <= s.len(),
        forall|k: int| i <= k < p ==> #[trigger] s[k] != '\n',
    ensures
        next_line_start(s, i) == next_line_start(s, p),
    decreases p - i,
{
    if i < p {
        assert(s[i] != '\n');
        lemma_line_goes_on(s, i + 1, p);
    }
}

/// Where the line of index `i` ends with the text, and not with a line
/// break, no line break stands behind `i`.
proof fn lemma_no_line_break(s: Seq<char>, i: int)
    requires
        0 <= i < s.len(),
        next_line_start(s, i) == s.len(),
        s[s.len() - 1] != '\n',
    ensures
        forall|k: int| i <= k < s.len() ==> #[trigger] s[k] != '\n',
    decreases s.len() - i,
{
    if s[i] == '\n' {
        assert(next_line_start(s, i) == i + 1);
    } else if i + 1 < s.len() {
        lemma_no_line_break(s, i + 1);
    }
}

/// The blank space before separators that are put in is skipped with
/// them.
proof fn lemma_blank_with_separators(s: Seq<char>, t: Seq<char>, p: int, d: int, i: int)
    requires
        separators_put_in(s, t, p, d),
        blank_between(s, i, p),
    ensures
        skip_blank(t, i) == skip_blank(t, p + d),
    decreases p - i,
{
    assert(same_before(s, t, p));
    if i == p {
        lemma_separators_skipped(t, p, d);
    } else {
        assert(t[i] == s[i]);
        if is_separator(s[i]) {
            lemma_blank_with_separators(s, t, p, d, i + 1);
        } else {
            lemma_next_line_start_bounds(s, i);
            let n = next_line_start(s, i);
            assert(starts_comment(t, i)) by {
                if i + 1 < p {
                    lemma_prefix_comment(s, t, p, i);
                }
            }
            lemma_next_line_start_bounds(t, i);
            if s[n - 1] == '\n' {
                lemma_prefix_line(s, t, p, i);
                lemma_blank_with_separators(s, t, p, d, n);
            } else {
                lemma_no_line_break(s, i);
                assert forall|k: int| i <= k < p implies #[trigger] t[k] != '\n' by {
                    assert(t[k] == s[k]);
                }
                lemma_line_goes_on(t, i, p);
                lemma_next_line_start_bounds(t, p);
                let q = next_line_start(t, i);
                lemma_separators_skipped(t, q, t.len() - q);
            }
        }
    }
}

/// Up to a boundary between two tokens the tokens of two texts are the
/// same, where the texts are the same up to an index in the blank space
/// behind the boundary.
proof fn lemma_run_to_boundary(
    s: Seq<char>,
    t: Seq<char>,
    p: int,
    b: int,
    i: int,
    in_string: bool,
)
    requires
        same_before(s, t, p),
        blank_between(s, b, p),
        boundary_from(s, i, in_string, b),
        tokens_from(t, b, false) == tokens_from(s, b, false),
    ensures
        tokens_from(t, i, in_string) == tokens_from(s, i, in_string),
    decreases b - i,
{
    if i < b {
        lemma_step_bounds(s, i, in_string);
        let st = step(s, i, in_string)->Some_0;
        assert(boundary_from(s, st.end, st.in_string, b));
        if st.end + 1 == p && is_fused_dispatch(s, st.end) {
            if b == p {
                lemma_fused_dispatch_is_no_boundary(s, st.end, st.in_string);
            } else {
                assert(st.end == b);
                assert(!is_separator(s[b]));
                assert(!starts_comment(s, b));
            }
        }
        lemma_prefix_step(s, t, p, i, in_string);
        lemma_tokens_unfold(s, i, in_string);
        lemma_tokens_unfold(t, i, in_string);
        lemma_run_to_boundary(s, t, p, b, st.end, st.in_string);
    }
}

/// Separators between two tokens change no token: where nothing but
/// separators and comments stands between a token that ends at index `i`
/// of the text `a + b` and the end of `a`, any separators `w` can be put in
/// behind `a`.
///
/// Where `b` begins with `#!` directly behind a token, a separator before
/// it would turn a word into a comment; such a `b` is left out.
pub proof fn law_separators_between_tokens(a: Seq<char>, w: Seq<char>, b: Seq<char>, i: int)
    requires
        all_separators(w),
        is_token_boundary(a + b, i),
        blank_between(a + b, i, a.len() as int),
        i == a.len() && i > 0 && !is_separator(a.last()) ==> !(b.len() >= 2 && b[0] == '#'
            && b[1] == '!'),
    ensures
        tokens_of(a + w + b) == tokens_of(a + b),
{
    let s = a + b;
    let t = a + w + b;
    let p = a.len() as int;
    let d = w.len() as int;
    if d == 0 {
        assert(t =~= s);
    } else {
        assert(separators_put_in(s, t, p, d)) by {
            assert forall|k: int| p <= k < s.len() implies #[trigger] t[k + d] == s[k] by {
                assert(s[k] == b[k - p]);
                assert(t[k + d] == b[k - p]);
            }
            assert forall|k: int| p <= k < p + d implies is_separator(#[trigger] t[k]) by {
                assert(t[k] == w[k - p]);
            }
        }
        assert(same_before(s, t, p));
        lemma_blank_skipped(s, i, p);
        lemma_blank_with_separators(s, t, p, d, i);
        lemma_same_blank_same_tokens(s, i, p);
        lemma_same_blank_same_tokens(t, i, p + d);
        assert(same_start(s, t, p, d)) by {
            assert(is_separator(t[p + d - 1]));
            if i < p {
                lemma_blank_ends(s, i, p);
            } else if p > 0 {
                assert(s[p - 1] == a.last());
                if p + 1 < s.len() {
                    assert(s[p] == b[0]);
                    assert(s[p + 1] == b[1]);
                }
            }
        }
        lemma_shift_tokens(s, t, p, d, p, false);
        lemma_run_to_boundary(s, t, p, i, 0, false);
    }
}

/// Whether the tokenizer, begun at index `i` of `s`, inside a string or
/// not, is outside of a string and of a token when it passes index `p`.
pub open spec fn outside_string_from(s: Seq<char>, i: int, in_string: bool, p: int) -> bool
    decreases s.len() - i,
{
    if i < 0 || i > p {
        false
    } else {
        match step(s, i, in_string) {
            None => !in_string,
            Some(st) => {
                proof {
                    lemma_step_bounds(s, i, in_string);
                }
                if st.end <= p {
                    outside_string_from(s, st.end, st.in_string, p)
                } else {
                    !in_string && p <= st.start
                }
            },
        }
    }
}

/// Whether index `p` of `s` lies outside of every string.
pub open spec fn is_outside_string(s: Seq<char>, p: int) -> bool {
    outside_string_from(s, 0, false, p)
}

/// Whether `t` is `s` with a comment of `d` characters, which begins with
/// `;` and holds no line break, put in at index `p`, where a line of `s`
/// ends.
pub open spec fn comment_put_in(s: Seq<char>, t: Seq<char>, p: int, d: int) -> bool {
    &&& same_before(s, t, p)
    &&& shifted(s, t, p, d)
    &&& d >= 1
    &&& t[p] == ';'
    &&& forall|k: int| p <= k < p + d ==> #[trigger] t[k] != '\n'
    &&& p == s.len() || s[p] == '\n'
}

/// Inside the comment that was put in, the line ends where the comment
/// ends.
proof fn lemma_line_inside_comment(s: Seq<char>, t: Seq<char>, p: int, d: int, k: int)
    requires
        comment_put_in(s, t, p, d),
        p <= k <= p + d,
    ensures
        next_line_start(t, k) == if p == s.len() {
            t.len() as int
        } else {
            p + d + 1
        },
    decreases p + d - k,
{
    if k < p + d {
        assert(t[k] != '\n');
        lemma_line_inside_comment(s, t, p, d, k + 1);
    } else if p < s.len() {
        assert(t[p + d] == s[p]);
    }
}

/// Where a line ends in the text with the comment: where it ended before,
/// if that is before the comment, else behind the comment.
proof fn lemma_line_with_comment(s: Seq<char>, t: Seq<char>, p: int, d: int, x: int)
    requires
        comment_put_in(s, t, p, d),
        0 <= x <= p,
    ensures
        next_line_start(s, x) <= p ==> next_line_start(t, x) == next_line_start(s, x) || (p
            == s.len() && next_line_start(t, x) == t.len()),
        next_line_start(s, x) > p ==> next_line_start(s, x) == p + 1 && next_line_start(t, x) == p
            + d + 1,
    decreases p - x,
{
    if x < p {
        assert(t[x] == s[x]);
        if s[x] != '\n' {
            lemma_line_with_comment(s, t, p, d, x + 1);
        }
    } else {
        lemma_line_inside_comment(s, t, p, d, p);
    }
}

/// Behind the end of the line and behind the comment the tokens are the
/// same.
proof fn lemma_tokens_behind_comment(s: Seq<char>, t: Seq<char>, p: int, d: int)
    requires
        comment_put_in(s, t, p, d),
        p < s.len(),
    ensures
        tokens_from(t, p + d + 1, false) == tokens_from(s, p + 1, false),
{
    assert(shifted(s, t, p + 1, d));
    assert(t[p + d] == s[p]);
    assert(same_start(s, t, p + 1, d));
    lemma_shift_tokens(s, t, p + 1, d, p + 1, false);
}

/// Where no token is left before the end of a text, none is left.
proof fn lemma_no_tokens_at_end(s: Seq<char>, x: int)
    requires
        0 <= x,
        skip_blank(s, x) >= s.len(),
    ensures
        tokens_from(s, x, false) == Seq::<SpecToken>::empty(),
{
    lemma_tokens_unfold(s, x, false);
}

/// In the blank space in which the comment is put, the tokens to come stay
/// the same.
proof fn lemma_comment_in_blank(s: Seq<char>, t: Seq<char>, p: int, d: int, x: int)
    requires
        comment_put_in(s, t, p, d),
        0 <= x <= p,
        p <= skip_blank(s, x),
    ensures
        tokens_from(t, x, false) == tokens_from(s, x, false),
    decreases p - x,
{
    lemma_line_with_comment(s, t, p, d, x);
    if x == p {
        lemma_line_inside_comment(s, t, p, d, p);
        assert(starts_comment(t, p));
        if p == s.len() {
            assert(skip_blank(t, t.len() as int) == t.len());
            lemma_no_tokens_at_end(s, x);
            lemma_no_tokens_at_end(t, x);
        } else {
            assert(is_separator(s[p]));
            lemma_same_blank_same_tokens(s, p, p + 1);
            lemma_same_blank_same_tokens(t, p, p + d + 1);
            lemma_tokens_behind_comment(s, t, p, d);
        }
    } else {
        assert(t[x] == s[x]);
        if is_separator(s[x]) {
            lemma_same_blank_same_tokens(s, x, x + 1);
            lemma_same_blank_same_tokens(t, x, x + 1);
            lemma_comment_in_blank(s, t, p, d, x + 1);
        } else if starts_comment(s, x) {
            assert(starts_comment(t, x)) by {
                if x > 0 {
                    assert(t[x - 1] == s[x - 1]);
                }
                if x + 1 < p {
                    assert(t[x + 1] == s[x + 1]);
                }
            }
            lemma_next_line_start_bounds(s, x);
            let n = next_line_start(s, x);
            if n > p {
                lemma_same_blank_same_tokens(s, x, p + 1);
                lemma_same_blank_same_tokens(t, x, p + d + 1);
                lemma_tokens_behind_comment(s, t, p, d);
            } else if next_line_start(t, x) == n {
                lemma_same_blank_same_tokens(s, x, n);
                lemma_same_blank_same_tokens(t, x, n);
                lemma_comment_in_blank(s, t, p, d, n);
            } else {
                lemma_skip_blank_bounds(s, n);
                assert(skip_blank(t, t.len() as int) == t.len());
                lemma_no_tokens_at_end(s, x);
                lemma_no_tokens_at_end(t, x);
            }
        }
    }
}

/// Up to the end of the line at which the comment is put in, and behind
/// it, the tokens of the two texts are the same.
proof fn lemma_run_outside_string(
    s: Seq<char>,
    t: Seq<char>,
    p: int,
    d: int,
    i: int,
    in_string: bool,
)
    requires
        comment_put_in(s, t, p, d),
        outside_string_from(s, i, in_string, p),
    ensures
        tokens_from(t, i, in_string) == tokens_from(s, i, in_string),
    decreases s.len() - i,
{
    lemma_step_bounds(s, i, in_string);
    match step(s, i, in_string) {
        Some(st) => {
            if st.end <= p {
                if in_string && st.in_string && st.end == p {
                    lemma_step_bounds(s, p, true);
                    assert(!outside_string_from(s, p, true, p));
                }
                lemma_prefix_step(s, t, p, i, in_string);
                lemma_tokens_unfold(s, i, in_string);
                lemma_tokens_unfold(t, i, in_string);
                lemma_run_outside_string(s, t, p, d, st.end, st.in_string);
            } else {
                lemma_comment_in_blank(s, t, p, d, i);
            }
        },
        None => {
            lemma_skip_blank_bounds(s, i);
            lemma_comment_in_blank(s, t, p, d, i);
        },
    }
}

/// A comment at the end of a line changes no token: where `a` ends at the
/// end of a line of the text `a + b`, outside of every string, a `;` and
/// any characters `c` without a line break can be put in behind `a`.
pub proof fn law_comment_at_line_end(a: Seq<char>, c: Seq<char>, b: Seq<char>)
    requires
        forall|k: int| 0 <= k < c.len() ==> #[trigger] c[k] != '\n',
        b.len() == 0 || b[0] == '\n',
        is_outside_string(a + b, a.len() as int),
    ensures
        tokens_of(a + seq![';'] + c + b) == tokens_of(a + b),
{
    let s = a + b;
    let t = a + seq![';'] + c + b;
    let p = a.len() as int;
    let d = c.len() as int + 1;
    assert(comment_put_in(s, t, p, d)) by {
        assert(t[p] == ';');
        assert forall|k: int| p <= k < s.len() implies #[trigger] t[k + d] == s[k] by {
            assert(s[k] == b[k - p]);
            assert(t[k + d] == b[k - p]);
        }
        assert forall|k: int| p <= k < p + d implies #[trigger] t[k] != '\n' by {
            if k > p {
                assert(t[k] == c[k - p - 1]);
            }
        }
        if p < s.len() {
            assert(s[p] == b[0]);
        }
    }
    lemma_run_outside_string(s, t, p, d, 0, false);
}

/// What a comment holds changes no token: under the conditions of
/// `law_comment_at_line_end`, a comment at the end of a line can hold any
/// characters but a line break.
pub proof fn law_comment_content(a: Seq<char>, c1: Seq<char>, c2: Seq<char>, b: Seq<char>)
    requires
        forall|k: int| 0 <= k < c1.len() ==> #[trigger] c1[k] != '\n',
        forall|k: int| 0 <= k < c2.len() ==> #[trigger] c2[k] != '\n',
        b.len() == 0 || b[0] == '\n',
        is_outside_string(a + b, a.len() as int),
    ensures
        tokens_of(a + seq![';'] + c1 + b) == tokens_of(a + seq![';'] + c2 + b),
{
    law_comment_at_line_end(a, c1, b);
    law_comment_at_line_end(a, c2, b);
}

/// Whether two sequences of tokens differ in the places at most.
pub open spec fn same_tokens(
    t1: Seq<(SpecToken, TokenInfo)>,
    t2: Seq<(SpecToken, TokenInfo)>,
) -> bool {
    &&& t1.len() == t2.len()
    &&& forall|i: int| 0 <= i < t1.len() ==> (#[trigger] t1[i]).0 == t2[i].0
}

proof fn lemma_same_tokens_skip(
    t1: Seq<(SpecToken, TokenInfo)>,
    t2: Seq<(SpecToken, TokenInfo)>,
    k: int,
)
    requires
        same_tokens(t1, t2),
        0 <= k <= t1.len(),
    ensures
        same_tokens(t1.skip(k), t2.skip(k)),
{
    assert forall|i: int| 0 <= i < t1.skip(k).len() implies (#[trigger] t1.skip(k)[i]).0
        == t2.skip(k)[i].0 by {
        assert(t1[i + k].0 == t2[i + k].0);
    }
}

/// Whether two forms differ in the places at most.
pub open spec fn same_form(f1: SpecForm, f2: SpecForm) -> bool
    decreases f1, 0int,
{
    match (f1, f2) {
        (SpecForm::Literal(t1, _), SpecForm::Literal(t2, _)) => t1 == t2,
        (SpecForm::StringBody(t1), SpecForm::StringBody(t2)) => t1 == t2,
        (SpecForm::List(a), SpecForm::List(b)) => same_forms(a, b),
        (SpecForm::Vector(a), SpecForm::Vector(b)) => same_forms(a, b),
        (SpecForm::Mapping(a), SpecForm::Mapping(b)) => same_forms(a, b),
        (SpecForm::Dispatch(t1, a, _), SpecForm::Dispatch(t2, b, _)) => t1 == t2 && same_forms(
            a,
            b,
        ),
        _ => false,
    }
}

/// Whether two sequences of forms differ in the places at most.
pub open spec fn same_forms(a: Seq<SpecForm>, b: Seq<SpecForm>) -> bool
    decreases a, 1int,
{
    &&& a.len() == b.len()
    &&& forall|i: int| 0 <= i < a.len() ==> same_form(#[trigger] a[i], b[i])
}

/// Forms that differ in the places at most have the same expression, or an
/// error each.
pub proof fn lemma_same_form_same_expression(f1: SpecForm, f2: SpecForm)
    requires
        same_form(f1, f2),
    ensures
        match expression_of(f1) {
            Ok(x) => expression_of(f2) == Ok::<SpecExpression, SpecParseError>(x),
            Err(_) => expression_of(f2) is Err,
        },
    decreases f1, 0int,
{
    match (f1, f2) {
        (SpecForm::List(a), SpecForm::List(b)) => lemma_same_forms_same_expressions(a, b),
        (SpecForm::Vector(a), SpecForm::Vector(b)) => lemma_same_forms_same_expressions(a, b),
        (SpecForm::Mapping(a), SpecForm::Mapping(b)) => lemma_same_forms_same_expressions(a, b),
        (SpecForm::Dispatch(_, a, _), SpecForm::Dispatch(_, b, _)) => {
            lemma_same_forms_same_expressions(a, b)
        },
        _ => {},
    }
}

/// Sequences of forms that differ in the places at most have the same
/// expressions, or an error each.
pub proof fn lemma_same_forms_same_expressions(a: Seq<SpecForm>, b: Seq<SpecForm>)
    requires
        same_forms(a, b),
    ensures
        match expressions_of(a) {
            Ok(xs) => expressions_of(b) == Ok::<Seq<SpecExpression>, SpecParseError>(xs),
            Err(_) => expressions_of(b) is Err,
        },
    decreases a, 1int,
{
    if a.len() > 0 {
        assert(same_forms(a.drop_last(), b.drop_last())) by {
            assert forall|i: int| 0 <= i < a.drop_last().len() implies same_form(
                #[trigger] a.drop_last()[i],
                b.drop_last()[i],
            ) by {
                assert(same_form(a[i], b[i]));
            }
        }
        assert(same_form(a.last(), b.last())) by {
            assert(same_form(a[a.len() - 1], b[a.len() - 1]));
        }
        lemma_same_forms_same_expressions(a.drop_last(), b.drop_last());
        lemma_same_form_same_expression(a.last(), b.last());
    }
}

/// The form that is read does not depend on the places of the tokens.
pub proof fn lemma_places_and_form(
    t1: Seq<(SpecToken, TokenInfo)>,
    t2: Seq<(SpecToken, TokenInfo)>,
    outer: Outer,
)
    requires
        same_tokens(t1, t2),
    ensures
        match read_form(t1, outer) {
            ReadStep::End => read_form(t2, outer) is End,
            ReadStep::Form(f, r1) => read_form(t2, outer) matches ReadStep::Form(f2, r2)
                && same_form(f, f2)
                && same_tokens(r1, r2),
            ReadStep::Fail(_) => read_form(t2, outer) is Fail,
        },
    decreases t1.len(), 0int,
{
    if t1.len() > 0 {
        assert(t1[0].0 == t2[0].0);
        let t = t1[0].0;
        lemma_same_tokens_skip(t1, t2, 1);
        if t.is_closer() {
        } else if t is StringDelimiter {
            if t1.len() >= 2 {
                assert(t1[1].0 == t2[1].0);
                lemma_same_tokens_skip(t1, t2, 2);
            }
            if t1.len() >= 3 {
                assert(t1[2].0 == t2[2].0);
                lemma_same_tokens_skip(t1, t2, 3);
            }
        } else if t is Literal {
        } else {
            match opened_by(t) {
                None => {},
                Some((inside, closer)) => {
                    lemma_places_and_forms(t1.skip(1), t2.skip(1), inside);
                    match read_forms(t1.skip(1), inside) {
                        Err(_) => {},
                        Ok((inner, r1)) => {
                            let r2 = read_forms(t2.skip(1), inside)->Ok_0.1;
                            if r1.len() > 0 {
                                assert(r1[0].0 == r2[0].0);
                                lemma_same_tokens_skip(r1, r2, 1);
                            }
                        },
                    }
                },
            }
        }
    }
}

/// The forms that are read do not depend on the places of the tokens.
pub proof fn lemma_places_and_forms(
    t1: Seq<(SpecToken, TokenInfo)>,
    t2: Seq<(SpecToken, TokenInfo)>,
    outer: Outer,
)
    requires
        same_tokens(t1, t2),
    ensures
        match read_forms(t1, outer) {
            Ok((fs, r1)) => read_forms(t2, outer) matches Ok((fs2, r2)) && same_forms(fs, fs2)
                && same_tokens(r1, r2),
            Err(_) => read_forms(t2, outer) is Err,
        },
    decreases t1.len(), 1int,
{
    lemma_places_and_form(t1, t2, outer);
    lemma_read_consumes(t1, outer);
    lemma_read_consumes(t2, outer);
    match read_form(t1, outer) {
        ReadStep::Form(f, r1) => {
            let r2 = read_form(t2, outer)->Form_1;
            lemma_places_and_forms(r1, r2, outer);
        },
        _ => {},
    }
}

/// The expressions of a sequence of tokens do not depend on the places of
/// the tokens; whether there is an error does not either.
pub proof fn lemma_places_and_expressions(
    t1: Seq<(SpecToken, TokenInfo)>,
    t2: Seq<(SpecToken, TokenInfo)>,
)
    requires
        same_tokens(t1, t2),
    ensures
        match parse_tokens(t1) {
            Ok(xs) => parse_tokens(t2) == Ok::<Seq<SpecExpression>, SpecParseError>(xs),
            Err(_) => parse_tokens(t2) is Err,
        },
    decreases t1.len(),
{
    lemma_places_and_form(t1, t2, Outer::TopLevel);
    lemma_read_consumes(t1, Outer::TopLevel);
    match read_form(t1, Outer::TopLevel) {
        ReadStep::Form(f, r1) => {
            let f2 = read_form(t2, Outer::TopLevel)->Form_0;
            let r2 = read_form(t2, Outer::TopLevel)->Form_1;
            lemma_same_form_same_expression(f, f2);
            lemma_places_and_expressions(r1, r2);
        },
        _ => {},
    }
}

/// Two texts with the same tokens have the same expressions, or an error
/// each, whichever scanners read them.
pub proof fn lemma_same_tokens_same_expressions<S1: Scanner, S2: Scanner>(
    s: Seq<char>,
    t: Seq<char>,
)
    requires
        tokens_of(s) == tokens_of(t),
    ensures
        match parse_text::<S1>(s) {
            Ok(xs) => parse_text::<S2>(t) == Ok::<Seq<SpecExpression>, SpecParseError>(xs),
            Err(_) => parse_text::<S2>(t) is Err,
        },
{
    let t1 = located_tokens::<S1>(s);
    let t2 = located_tokens::<S2>(t);
    assert(t1.len() == tokens_of(s).len());
    assert(t2.len() == tokens_of(t).len());
    assert forall|i: int| 0 <= i < t1.len() implies (#[trigger] t1[i]).0 == t2[i].0 by {
        assert(t1[i].0 == tokens_of(s)[i]);
        assert(t2[i].0 == tokens_of(t)[i]);
    }
    lemma_places_and_expressions(t1, t2);
}

/// The expressions of a text do not depend on the scanner that reads it:
/// two scanners differ in the places that they report, and in nothing
/// else.
pub proof fn law_scanners_agree<S1: Scanner, S2: Scanner>(text: Seq<char>)
    ensures
        match parse_text::<S1>(text) {
            Ok(xs) => parse_text::<S2>(text) == Ok::<Seq<SpecExpression>, SpecParseError>(xs),
            Err(_) => parse_text::<S2>(text) is Err,
        },
{
    lemma_same_tokens_same_expressions::<S1, S2>(text, text);
}

/// Separators between two tokens change no expression: under the
/// conditions of `law_separators_between_tokens` the text with the
/// separators has the expressions of the text without them, or an error
/// where that has one.
pub proof fn law_separators_are_transparent<S: Scanner>(
    a: Seq<char>,
    w: Seq<char>,
    b: Seq<char>,
    i: int,
)
    requires
        all_separators(w),
        is_token_boundary(a + b, i),
        blank_between(a + b, i, a.len() as int),
        i == a.len() && i > 0 && !is_separator(a.last()) ==> !(b.len() >= 2 && b[0] == '#'
            && b[1] == '!'),
    ensures
        match parse_text::<S>(a + b) {
            Ok(xs) => parse_text::<S>(a + w + b) == Ok::<Seq<SpecExpression>, SpecParseError>(xs),
            Err(_) => parse_text::<S>(a + w + b) is Err,
        },
{
    law_separators_between_tokens(a, w, b, i);
    lemma_same_tokens_same_expressions::<S, S>(a + b, a + w + b);
}

/// A comment at the end of a line changes no expression: under the
/// conditions of `law_comment_at_line_end` the text with the comment has
/// the expressions of the text without it, or an error where that has one.
pub proof fn law_comments_are_transparent<S: Scanner>(a: Seq<char>, c: Seq<char>, b: Seq<char>)
    requires
        forall|k: int| 0 <= k < c.len() ==> #[trigger] c[k] != '\n',
        b.len() == 0 || b[0] == '\n',
        is_outside_string(a + b, a.len() as int),
    ensures
        match parse_text::<S>(a + b) {
            Ok(xs) => parse_text::<S>(a + seq![';'] + c + b) == Ok::<
                Seq<SpecExpression>,
                SpecParseError,
            >(xs),
            Err(_) => parse_text::<S>(a + seq![';'] + c + b) is Err,
        },
{
    law_comment_at_line_end(a, c, b);
    lemma_same_tokens_same_expressions::<S, S>(a + b, a + seq![';'] + c + b);
}

} // verus!
