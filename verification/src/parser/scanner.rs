//! Character sources: one capability set, two ways of holding the text.

use vstd::prelude::*;
use crate::parser::text::chars_of;

verus! {

/// The character at index `i` of `s`, if there is one.
pub open spec fn char_at(s: Seq<char>, i: int) -> Option<char> {
    if 0 <= i < s.len() {
        Some(s[i])
    } else {
        None
    }
}

/// The index at which the line after the one holding index `i` begins: one
/// past the first line break at or after `i`, or the end of `s` when no line
/// break is left.
pub open spec fn next_line_start(s: Seq<char>, i: int) -> int
    decreases s.len() - i,
{
    if i >= s.len() {
        s.len() as int
    } else if s[i] == '\n' {
        i + 1
    } else {
        next_line_start(s, i + 1)
    }
}

/// `n + 1`, or the largest `usize` where that does not fit.
pub open spec fn one_based(n: int) -> usize {
    if 0 <= n < usize::MAX {
        (n + 1) as usize
    } else {
        usize::MAX
    }
}

/// A forward-only cursor over a text, with one character of look-ahead and
/// one of look-behind.
///
/// Every scanner stands for a flat text and an offset into it, whatever it
/// stores: the tokenizer is specified over these two alone.
pub trait Scanner: Sized {
    /// The invariant of the implementation.
    spec fn wf(&self) -> bool;

    /// The whole input, as one sequence of characters.
    spec fn text(&self) -> Seq<char>;

    /// The number of characters already consumed.
    spec fn offset(&self) -> int;

    /// The line and column that scanners of this type report for the
    /// character at `offset` of `text`.
    spec fn place(text: Seq<char>, offset: int) -> (usize, usize);

    /// The offset never leaves the text.
    proof fn offset_in_text(&self)
        requires
            self.wf(),
        ensures
            0 <= self.offset() <= self.text().len(),
    ;

    /// The character under the cursor, `None` at the end of the input.
    fn current_char(&self) -> (c: Option<char>)
        requires
            self.wf(),
        ensures
            c == char_at(self.text(), self.offset()),
    ;

    /// The character after the one under the cursor; nothing is consumed.
    fn next_char(&self) -> (c: Option<char>)
        requires
            self.wf(),
        ensures
            c == char_at(self.text(), self.offset() + 1),
    ;

    /// The character before the one under the cursor, `None` at the start.
    fn previous_char(&self) -> (c: Option<char>)
        requires
            self.wf(),
        ensures
            c == char_at(self.text(), self.offset() - 1),
    ;

    /// Consumes the character under the cursor; at the end nothing changes.
    fn pop(&mut self)
        requires
            old(self).wf(),
        ensures
            final(self).wf(),
            final(self).text() == old(self).text(),
            final(self).offset() == if old(self).offset() < old(self).text().len() {
                old(self).offset() + 1
            } else {
                old(self).offset()
            },
    ;

    /// Discards the rest of the current line, line break included.
    fn flush_line(&mut self)
        requires
            old(self).wf(),
        ensures
            final(self).wf(),
            final(self).text() == old(self).text(),
            final(self).offset() == next_line_start(old(self).text(), old(self).offset()),
    ;

    /// The line and column of the character under the cursor.
    fn position(&self) -> (p: (usize, usize))
        requires
            self.wf(),
        ensures
            p == Self::place(self.text(), self.offset()),
    ;
}

/// A scanner over a text held in memory as one array of characters.
///
/// It knows no lines: it reports line 0, and as column the one-based index
/// of the character in the whole text.
pub struct StringScanner {
    chars: Vec<char>,
    index: usize,
}

impl StringScanner {
    /// A scanner at the start of `text`.
    pub fn new(text: &String) -> (s: StringScanner)
        ensures
            s.wf(),
            s.text() == text@,
            s.offset() == 0,
    {
        StringScanner { chars: chars_of(text.as_str()), index: 0 }
    }
}

impl Scanner for StringScanner {
    closed spec fn wf(&self) -> bool {
        self.index <= self.chars.len()
    }

    closed spec fn text(&self) -> Seq<char> {
        self.chars@
    }

    closed spec fn offset(&self) -> int {
        self.index as int
    }

    open spec fn place(text: Seq<char>, offset: int) -> (usize, usize) {
        (0, one_based(offset))
    }

    proof fn offset_in_text(&self) {
    }

    fn current_char(&self) -> (c: Option<char>) {
        if self.index < self.chars.len() {
            Some(self.chars[self.index])
        } else {
            None
        }
    }

    fn next_char(&self) -> (c: Option<char>) {
        if self.index < self.chars.len() && self.index + 1 < self.chars.len() {
            Some(self.chars[self.index + 1])
        } else {
            None
        }
    }

    fn previous_char(&self) -> (c: Option<char>) {
        if self.index > 0 {
            Some(self.chars[self.index - 1])
        } else {
            None
        }
    }

    fn pop(&mut self) {
        if self.index < self.chars.len() {
            self.index = self.index + 1;
        }
    }

    fn flush_line(&mut self) {
        let ghost start = self.index as int;
        while self.index < self.chars.len() && self.chars[self.index] != '\n'
            invariant
                self.index <= self.chars.len(),
                self.chars == old(self).chars,
                start <= self.index,
                next_line_start(self.chars@, start) == next_line_start(
                    self.chars@,
                    self.index as int,
                ),
            decreases self.chars.len() - self.index,
        {
            self.index = self.index + 1;
        }
        if self.index < self.chars.len() {
            self.index = self.index + 1;
        }
    }

    fn position(&self) -> (p: (usize, usize)) {
        if self.index < usize::MAX {
            (0, self.index + 1)
        } else {
            (0, usize::MAX)
        }
    }
}

/// The text that a sequence of lines stands for: each line followed by a
/// line break.
pub open spec fn joined_lines(rows: Seq<Seq<char>>) -> Seq<char>
    decreases rows.len(),
{
    if rows.len() == 0 {
        Seq::empty()
    } else {
        joined_lines(rows.drop_last()) + rows.last() + seq!['\n']
    }
}

/// The offset at which line `k` begins in the text of `rows`.
pub open spec fn line_offset(rows: Seq<Seq<char>>, k: int) -> int {
    joined_lines(rows.take(k)).len() as int
}

/// The number of line breaks before `offset`: the zero-based line of the
/// character there.
pub open spec fn line_of(text: Seq<char>, offset: int) -> int
    decreases offset,
{
    if offset <= 0 {
        0
    } else if text[offset - 1] == '\n' {
        line_of(text, offset - 1) + 1
    } else {
        line_of(text, offset - 1)
    }
}

/// The offset at which the line that holds `offset` begins.
pub open spec fn line_start(text: Seq<char>, offset: int) -> int
    decreases offset,
{
    if offset <= 0 {
        0
    } else if text[offset - 1] == '\n' {
        offset
    } else {
        line_start(text, offset - 1)
    }
}

/// The views of a vector of strings.
pub open spec fn string_views(lines: Seq<String>) -> Seq<Seq<char>> {
    Seq::new(lines.len(), |i: int| lines[i]@)
}

/// The text of the first `k` lines begins the text of all the lines.
pub proof fn lemma_joined_prefix(rows: Seq<Seq<char>>, k: int)
    requires
        0 <= k <= rows.len(),
    ensures
        line_offset(rows, k) <= joined_lines(rows).len(),
        joined_lines(rows).take(line_offset(rows, k)) == joined_lines(rows.take(k)),
    decreases rows.len(),
{
    if k == rows.len() {
        assert(rows.take(k) =~= rows);
        assert(joined_lines(rows).take(line_offset(rows, k)) =~= joined_lines(rows));
    } else {
        lemma_joined_prefix(rows.drop_last(), k);
        assert(rows.drop_last().take(k) =~= rows.take(k));
        assert(joined_lines(rows).take(line_offset(rows, k)) =~= joined_lines(
            rows.drop_last(),
        ).take(line_offset(rows, k)));
    }
}

/// Line `k` stands in the text at its offset and is followed by a line
/// break, behind which the next line begins.
pub proof fn lemma_joined_line(rows: Seq<Seq<char>>, k: int)
    requires
        0 <= k < rows.len(),
    ensures
        line_offset(rows, k + 1) == line_offset(rows, k) + rows[k].len() + 1,
        line_offset(rows, k + 1) <= joined_lines(rows).len(),
        forall|c: int|
            0 <= c < rows[k].len() ==> #[trigger] joined_lines(rows)[line_offset(rows, k) + c]
                == rows[k][c],
        joined_lines(rows)[line_offset(rows, k) + rows[k].len()] == '\n',
{
    lemma_joined_prefix(rows, k + 1);
    let upto = rows.take(k + 1);
    assert(upto.drop_last() =~= rows.take(k));
    assert(upto.last() == rows[k]);
    let head = joined_lines(upto);
    assert(head == joined_lines(rows.take(k)) + rows[k] + seq!['\n']);
    assert forall|c: int| 0 <= c < rows[k].len() implies #[trigger] joined_lines(
        rows,
    )[line_offset(rows, k) + c] == rows[k][c] by {
        assert(joined_lines(rows)[line_offset(rows, k) + c] == head[line_offset(rows, k) + c]);
    }
    assert(joined_lines(rows)[line_offset(rows, k) + rows[k].len()] == head[line_offset(rows, k)
        + rows[k].len()]);
}

/// All the lines together are the whole text.
pub proof fn lemma_joined_all(rows: Seq<Seq<char>>)
    ensures
        line_offset(rows, rows.len() as int) == joined_lines(rows).len(),
{
    assert(rows.take(rows.len() as int) =~= rows);
}

/// Whether no line holds a line break.
pub open spec fn no_line_breaks(rows: Seq<Seq<char>>) -> bool {
    forall|k: int, c: int| 0 <= k < rows.len() && 0 <= c < rows[k].len() ==> rows[k][c] != '\n'
}

/// From column `c` of line `k`, the next line begins where line `k + 1`
/// does.
pub proof fn lemma_next_line(rows: Seq<Seq<char>>, k: int, c: int)
    requires
        0 <= k < rows.len(),
        0 <= c <= rows[k].len(),
        no_line_breaks(rows),
    ensures
        next_line_start(joined_lines(rows), line_offset(rows, k) + c) == line_offset(rows, k + 1),
    decreases rows[k].len() - c,
{
    lemma_joined_line(rows, k);
    if c < rows[k].len() {
        assert(joined_lines(rows)[line_offset(rows, k) + c] == rows[k][c]);
        lemma_next_line(rows, k, c + 1);
    }
}

/// Column `c` of line `k` is on line `k`, which begins at its offset.
pub proof fn lemma_line_of(rows: Seq<Seq<char>>, k: int, c: int)
    requires
        0 <= k <= rows.len(),
        k < rows.len() ==> 0 <= c <= rows[k].len(),
        k == rows.len() ==> c == 0,
        no_line_breaks(rows),
    ensures
        line_of(joined_lines(rows), line_offset(rows, k) + c) == k,
        line_start(joined_lines(rows), line_offset(rows, k) + c) == line_offset(rows, k),
    decreases k, c,
{
    if c > 0 {
        lemma_joined_line(rows, k);
        assert(joined_lines(rows)[line_offset(rows, k) + (c - 1)] == rows[k][c - 1]);
        lemma_line_of(rows, k, c - 1);
    } else if k > 0 {
        lemma_joined_line(rows, k - 1);
        lemma_line_of(rows, k - 1, rows[k - 1].len() as int);
    } else {
        assert(rows.take(0) =~= Seq::empty());
    }
}

/// A scanner over a text held as lines: it maps a cursor of line and column
/// to the flat text in which every line is followed by a line break.
///
/// It reports one-based lines and columns.
#[derive(Debug)]
pub struct LineScanner {
    lines: Vec<Vec<char>>,
    line: usize,
    column: usize,
}

impl LineScanner {
    /// The lines as sequences of characters: the text cut behind each of
    /// its line breaks.
    pub closed spec fn rows(&self) -> Seq<Seq<char>> {
        Seq::new(self.lines.len() as nat, |k: int| self.lines[k]@)
    }

    /// A scanner at the start of the text of `lines`: each of them followed
    /// by a line break.
    pub fn from_buffer(lines: Vec<String>) -> (s: LineScanner)
        ensures
            s.wf(),
            s.text() == joined_lines(string_views(lines@)),
            s.text() == joined_lines(s.rows()),
            no_line_breaks(s.rows()),
            s.offset() == 0,
    {
        let ghost input = string_views(lines@);
        let mut rows: Vec<Vec<char>> = Vec::new();
        let mut i: usize = 0;
        assert(input.take(0) =~= Seq::empty());
        assert(Seq::new(rows.len() as nat, |k: int| rows[k]@) =~= Seq::<Seq<char>>::empty());
        while i < lines.len()
            invariant
                i <= lines.len(),
                input == string_views(lines@),
                no_line_breaks(Seq::new(rows.len() as nat, |k: int| rows[k]@)),
                joined_lines(Seq::new(rows.len() as nat, |k: int| rows[k]@)) == joined_lines(
                    input.take(i as int),
                ),
            decreases lines.len() - i,
        {
            let chars = chars_of(lines[i].as_str());
            let mut row: Vec<char> = Vec::new();
            let mut j: usize = 0;
            let ghost before = joined_lines(input.take(i as int));
            assert(before + row@ =~= before + chars@.take(0));
            while j < chars.len()
                invariant
                    j <= chars.len(),
                    no_line_breaks(Seq::new(rows.len() as nat, |k: int| rows[k]@)),
                    forall|c: int| 0 <= c < row.len() ==> row[c] != '\n',
                    joined_lines(Seq::new(rows.len() as nat, |k: int| rows[k]@)) + row@ == before
                        + chars@.take(j as int),
                decreases chars.len() - j,
            {
                let c = chars[j];
                let ghost done = Seq::new(rows.len() as nat, |k: int| rows[k]@);
                assert(chars@.take(j + 1) =~= chars@.take(j as int).push(c));
                if c == '\n' {
                    rows.push(row);
                    let ghost more = Seq::new(rows.len() as nat, |k: int| rows[k]@);
                    assert(more.drop_last() =~= done);
                    row = Vec::new();
                    assert(joined_lines(more) + row@ =~= before + chars@.take(j + 1));
                    assert(no_line_breaks(more)) by {
                        assert forall|k: int, c: int|
                            0 <= k < more.len() && 0 <= c < more[k].len() implies more[k][c]
                            != '\n' by {
                            if k < done.len() {
                                assert(more[k] == done[k]);
                            }
                        }
                    }
                } else {
                    let ghost shorter = row@;
                    row.push(c);
                    assert(joined_lines(done) + row@ =~= (joined_lines(done) + shorter).push(c));
                    assert((before + chars@.take(j as int)).push(c) =~= before + chars@.take(
                        j + 1,
                    ));
                }
                j = j + 1;
            }
            let ghost done = Seq::new(rows.len() as nat, |k: int| rows[k]@);
            rows.push(row);
            let ghost more = Seq::new(rows.len() as nat, |k: int| rows[k]@);
            assert(more.drop_last() =~= done);
            assert(chars@.take(j as int) =~= chars@);
            assert(input.take(i + 1).drop_last() =~= input.take(i as int));
            assert(input.take(i + 1).last() == chars@);
            assert(joined_lines(more) =~= joined_lines(input.take(i + 1)));
            assert(no_line_breaks(more)) by {
                assert forall|k: int, c: int|
                    0 <= k < more.len() && 0 <= c < more[k].len() implies more[k][c] != '\n' by {
                    if k < done.len() {
                        assert(more[k] == done[k]);
                    }
                }
            }
            i = i + 1;
        }
        assert(input.take(i as int) =~= input);
        let s = LineScanner { lines: rows, line: 0, column: 0 };
        assert(s.rows().take(0) =~= Seq::empty());
        s
    }

    /// Where the cursor stands in the text: before the end on a line, at
    /// the end behind the last line.
    proof fn lemma_cursor(&self)
        requires
            self.wf(),
        ensures
            0 <= self.offset() <= self.text().len(),
            self.line < self.lines.len() <==> self.offset() < self.text().len(),
    {
        if self.line < self.lines.len() {
            lemma_joined_line(self.rows(), self.line as int);
        } else {
            lemma_joined_all(self.rows());
        }
    }

    /// The character at column `idx.1` of line `idx.0`: the line break
    /// at and behind the end of a line, `None` behind the last line. On a
    /// line, up to the line break, and right behind the last line, that is
    /// the character at the offset of the text that the two stand for.
    pub fn read_char(&self, idx: (usize, usize)) -> (c: Option<char>)
        ensures
            c == if idx.0 < self.rows().len() {
                if idx.1 < self.rows()[idx.0 as int].len() {
                    Some(self.rows()[idx.0 as int][idx.1 as int])
                } else {
                    Some('\n')
                }
            } else {
                None
            },
            (idx.0 < self.rows().len() && idx.1 <= self.rows()[idx.0 as int].len()) || (idx.0
                == self.rows().len() && idx.1 == 0) ==> c == char_at(
                self.text(),
                line_offset(self.rows(), idx.0 as int) + idx.1,
            ),
    {
        let (l, c) = idx;
        proof {
            if l < self.lines.len() {
                lemma_joined_line(self.rows(), l as int);
            } else if l == self.lines.len() {
                lemma_joined_all(self.rows());
            }
        }
        if l < self.lines.len() {
            if c < self.lines[l].len() {
                Some(self.lines[l][c])
            } else {
                Some('\n')
            }
        } else {
            None
        }
    }
}

impl Scanner for LineScanner {
    closed spec fn wf(&self) -> bool {
        &&& self.line <= self.lines.len()
        &&& self.line < self.lines.len() ==> self.column <= self.lines[self.line as int].len()
        &&& self.line == self.lines.len() ==> self.column == 0
        &&& no_line_breaks(self.rows())
    }

    closed spec fn text(&self) -> Seq<char> {
        joined_lines(self.rows())
    }

    closed spec fn offset(&self) -> int {
        line_offset(self.rows(), self.line as int) + self.column
    }

    open spec fn place(text: Seq<char>, offset: int) -> (usize, usize) {
        (one_based(line_of(text, offset)), one_based(offset - line_start(text, offset)))
    }

    proof fn offset_in_text(&self) {
        self.lemma_cursor();
    }

    fn current_char(&self) -> (c: Option<char>) {
        self.read_char((self.line, self.column))
    }

    fn next_char(&self) -> (c: Option<char>) {
        proof {
            self.lemma_cursor();
        }
        if self.line < self.lines.len() {
            proof {
                lemma_joined_line(self.rows(), self.line as int);
            }
            if self.column < self.lines[self.line].len() {
                self.read_char((self.line, self.column + 1))
            } else {
                self.read_char((self.line + 1, 0))
            }
        } else {
            None
        }
    }

    fn previous_char(&self) -> (c: Option<char>) {
        if self.column > 0 {
            self.read_char((self.line, self.column - 1))
        } else if self.line > 0 {
            proof {
                lemma_joined_line(self.rows(), self.line - 1);
            }
            self.read_char((self.line - 1, self.lines[self.line - 1].len()))
        } else {
            assert(self.rows().take(0) =~= Seq::empty());
            None
        }
    }

    fn pop(&mut self) {
        proof {
            self.lemma_cursor();
        }
        if self.line < self.lines.len() {
            proof {
                lemma_joined_line(self.rows(), self.line as int);
            }
            if self.column >= self.lines[self.line].len() {
                self.column = 0;
                self.line = self.line + 1;
            } else {
                self.column = self.column + 1;
            }
        }
        assert(self.rows() =~= old(self).rows());
    }

    fn flush_line(&mut self) {
        proof {
            self.lemma_cursor();
        }
        if self.line < self.lines.len() {
            proof {
                lemma_next_line(self.rows(), self.line as int, self.column as int);
            }
            self.column = 0;
            self.line = self.line + 1;
        }
        assert(self.rows() =~= old(self).rows());
    }

    fn position(&self) -> (p: (usize, usize)) {
        proof {
            lemma_line_of(self.rows(), self.line as int, self.column as int);
        }
        let line = if self.line < usize::MAX {
            self.line + 1
        } else {
            usize::MAX
        };
        let column = if self.column < usize::MAX {
            self.column + 1
        } else {
            usize::MAX
        };
        (line, column)
    }
}

} // verus!
