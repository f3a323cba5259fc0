//! A single- or multi-line text editor.
//!
//! An [`Editor`] holds its text as lines, with a cursor and perhaps a selection.
//! Its operations are small, so that an application can bind keys as it likes;
//! [`apply_edit_key`] binds the usual ones for a single-line field. What to draw
//! is computed by [`render_editor`], [`render_line_field`] and
//! [`render_clipped_line`] for whatever area the application gives them; drawing
//! it is left to the application.

use vstd::prelude::*;

use crate::geometry::{cell_numbers, Rect};
use crate::key::{KeyCode, KeyEvent};
use crate::selection::covers;
use crate::style::{plain_style, Color, Style, DIM};
use crate::text::{
    byte_len, byte_offset, greatest, join, join_strings, law_join_puts_separators_between,
    law_join_undoes_split, least, lemma_byte_offset_order, lemma_byte_offset_step, newline,
    push_chars, push_from, split_newlines, split_text, substring, texts, utf8_len,
};

verus! {

// ---------------------------------------------------------------------------
// Model
// ---------------------------------------------------------------------------

/// What an [`Editor`] holds.
pub struct EditorState {
    /// The lines of the text.
    pub lines: Seq<Seq<char>>,
    /// The cursor's line.
    pub row: usize,
    /// The cursor's column, in characters.
    pub col: usize,
    /// Whether line breaks can be typed.
    pub multiline: bool,
    /// The end of the selection that the cursor is not at.
    pub sel_anchor: Option<(usize, usize)>,
}

impl EditorState {
    /// The line that the cursor is in.
    pub open spec fn line(self) -> Seq<char> {
        self.lines[self.row as int]
    }

    /// Whether there is a line under the cursor.
    pub open spec fn has_line(self) -> bool {
        self.row < self.lines.len()
    }

    /// Whether the cursor is in the text, or just past a line's end.
    pub open spec fn cursor_in_text(self) -> bool {
        self.row < self.lines.len() && self.col <= self.line().len()
    }

    /// The text, its lines joined by line feeds.
    pub open spec fn text(self) -> Seq<char> {
        join(self.lines, newline())
    }

    /// The character of its line that the cursor stands before: the line's end
    /// for a column past it.
    pub open spec fn at(self) -> int {
        least(self.col as int, self.line().len() as int)
    }

    /// After a character was typed.
    pub open spec fn inserted(self, ch: char) -> EditorState {
        EditorState {
            lines: self.lines.update(self.row as int, self.line().insert(self.at(), ch)),
            col: (self.col + 1) as usize,
            ..self
        }
    }

    /// After the characters of `s` were typed one by one.
    pub open spec fn typed(self, s: Seq<char>) -> EditorState
        decreases s.len(),
    {
        if s.len() == 0 {
            self
        } else {
            self.typed(s.drop_last()).inserted(s.last())
        }
    }

    /// After the line was broken at the cursor.
    pub open spec fn broken(self) -> EditorState {
        if self.multiline {
            EditorState {
                lines: self.lines.update(self.row as int, self.line().take(self.at())).insert(
                    self.row + 1,
                    self.line().skip(self.at()),
                ),
                row: (self.row + 1) as usize,
                col: 0,
                ..self
            }
        } else {
            self
        }
    }

    /// After the character before the cursor was deleted, or, at the start of a
    /// line, the break before it.
    pub open spec fn rubbed_out(self) -> EditorState {
        if self.col > 0 {
            EditorState {
                lines: if self.col <= self.line().len() {
                    self.lines.update(self.row as int, self.line().remove(self.col - 1))
                } else {
                    self.lines
                },
                col: (self.col - 1) as usize,
                ..self
            }
        } else if self.row > 0 {
            EditorState {
                lines: self.lines.remove(self.row as int).update(
                    self.row - 1,
                    self.lines[self.row - 1] + self.line(),
                ),
                row: (self.row - 1) as usize,
                col: self.lines[self.row - 1].len() as usize,
                ..self
            }
        } else {
            self
        }
    }

    /// With the cursor elsewhere.
    pub open spec fn with_cursor(self, row: int, col: int) -> EditorState {
        EditorState { row: row as usize, col: col as usize, ..self }
    }

    /// After a step to the left.
    pub open spec fn stepped_left(self) -> EditorState {
        if self.col > 0 {
            self.with_cursor(self.row as int, self.col - 1)
        } else if self.row > 0 {
            self.with_cursor(self.row - 1, self.lines[self.row - 1].len() as int)
        } else {
            self
        }
    }

    /// After a step to the right.
    pub open spec fn stepped_right(self) -> EditorState {
        if self.col < self.line().len() {
            self.with_cursor(self.row as int, self.col + 1)
        } else if self.row + 1 < self.lines.len() {
            self.with_cursor(self.row + 1, 0)
        } else {
            self
        }
    }

    /// After a step up.
    pub open spec fn stepped_up(self) -> EditorState {
        if self.row > 0 {
            self.with_cursor(
                self.row - 1,
                least(self.col as int, self.lines[self.row - 1].len() as int),
            )
        } else {
            self
        }
    }

    /// After a step down.
    pub open spec fn stepped_down(self) -> EditorState {
        if self.row + 1 < self.lines.len() {
            self.with_cursor(
                self.row + 1,
                least(self.col as int, self.lines[self.row + 1].len() as int),
            )
        } else {
            self
        }
    }

    /// Ready for a move of the cursor, with a selection that is begun or kept, or
    /// with none.
    pub open spec fn selecting(self, extend: bool) -> EditorState {
        EditorState {
            sel_anchor: if !extend {
                None
            } else if self.sel_anchor is Some {
                self.sel_anchor
            } else {
                Some((self.row, self.col))
            },
            ..self
        }
    }

    /// The ends of the selection in the order of the text; none where nothing is
    /// selected.
    pub open spec fn selection(self) -> Option<((usize, usize), (usize, usize))> {
        match self.sel_anchor {
            None => None,
            Some(anchor) => {
                let cursor = (self.row, self.col);
                if anchor == cursor {
                    None
                } else if comes_first(anchor, cursor) {
                    Some((anchor, cursor))
                } else {
                    Some((cursor, anchor))
                }
            },
        }
    }

    /// The part of line `i` that a selection from `start` to `end` covers.
    pub open spec fn selected_piece(
        self,
        start: (usize, usize),
        end: (usize, usize),
        i: int,
    ) -> Seq<char> {
        let line = self.lines[i];
        let len = line.len() as int;
        let from = if i == start.0 {
            least(start.1 as int, len)
        } else {
            0
        };
        let to = if i == end.0 {
            least(end.1 as int, len)
        } else {
            len
        };
        if from < to {
            line.subrange(from, to)
        } else {
            Seq::<char>::empty()
        }
    }

    /// The text that a selection from `start` to `end` covers.
    pub open spec fn selected(self, start: (usize, usize), end: (usize, usize)) -> Seq<char> {
        join(
            Seq::new(
                (end.0 + 1 - start.0) as nat,
                |k: int| self.selected_piece(start, end, start.0 + k),
            ),
            newline(),
        )
    }

    /// The first line in sight in an area of `height` rows: the cursor's line is
    /// in sight, at the bottom if need be.
    pub open spec fn first_row(self, height: int) -> int {
        greatest(self.row - greatest(height - 1, 0), 0)
    }

    /// The first column in sight in an area of `width` columns.
    pub open spec fn first_col(self, width: int) -> int {
        greatest(self.col - greatest(width - 1, 0), 0)
    }

    /// The position under a terminal cell, given as column and row: not limited
    /// to what is in sight, but to the text.
    pub open spec fn pos_under(self, point: (u16, u16), area: Rect) -> (int, int) {
        let row = greatest(
            least(
                self.first_row(area.height as int) + (point.1 - area.y),
                self.lines.len() - 1,
            ),
            0,
        );
        let col = greatest(self.first_col(area.width as int) + (point.0 - area.x), 0);
        (row, least(col, self.lines[row].len() as int))
    }
}

/// An editor of `text` with the cursor at its end.
pub open spec fn opened(text: Seq<char>, multiline: bool) -> EditorState {
    let lines = split_newlines(text);
    EditorState {
        lines,
        row: (lines.len() - 1) as usize,
        col: lines.last().len() as usize,
        multiline,
        sel_anchor: None,
    }
}

/// Whether `a` comes before `b`, both given as line and column.
pub open spec fn comes_first(a: (usize, usize), b: (usize, usize)) -> bool {
    a.0 < b.0 || (a.0 == b.0 && a.1 <= b.1)
}

// ---------------------------------------------------------------------------
// The editor
// ---------------------------------------------------------------------------

/// A text with a cursor and perhaps a selection.
pub struct Editor {
    /// The lines of the text; there is always at least one.
    pub lines: Vec<String>,
    /// The cursor's line.
    pub row: usize,
    /// The cursor's column, in characters.
    pub col: usize,
    /// Whether line breaks can be typed.
    pub multiline: bool,
    /// The end of the selection that the cursor is not at, as line and column;
    /// `None` where nothing is selected.
    pub sel_anchor: Option<(usize, usize)>,
}

impl View for Editor {
    type V = EditorState;

    open spec fn view(&self) -> EditorState {
        EditorState {
            lines: texts(self.lines@),
            row: self.row,
            col: self.col,
            multiline: self.multiline,
            sel_anchor: self.sel_anchor,
        }
    }
}

impl Editor {
    /// An editor of `text` with the cursor at its end. `multiline` says whether
    /// line breaks can be typed.
    pub fn new(text: &str, multiline: bool) -> (r: Self)
        ensures
            r@.lines == split_newlines(text@),
            r@.lines.len() > 0,
            r@.row == r@.lines.len() - 1,
            r@.col == r@.lines.last().len(),
            r@.multiline == multiline,
            r@.sel_anchor is None,
            r@ == opened(text@, multiline),
    {
        let lines = split_text(text);
        let row: usize = lines.len() - 1;
        let col: usize = lines[row].as_str().unicode_len();
        let r = Editor { lines, row, col, multiline, sel_anchor: None };
        assert(texts(r.lines@).len() == r.lines@.len());
        r
    }

    /// An empty single-line editor.
    pub fn blank() -> (r: Self)
        ensures
            r@.lines == seq![Seq::<char>::empty()],
            r@.row == 0,
            r@.col == 0,
            !r@.multiline,
            r@.sel_anchor is None,
    {
        proof {
            reveal_strlit("");
        }
        let r = Editor::new("", false);
        assert(""@ =~= Seq::<char>::empty());
        r
    }

    /// The whole text, its lines joined by line feeds.
    pub fn text(&self) -> (r: String)
        ensures
            r@ == self@.text(),
    {
        proof {
            reveal_strlit("\n");
            assert("\n"@ =~= newline());
        }
        join_strings(&self.lines, "\n")
    }

    /// The byte of `line` that character `char_col` starts at, or its number of
    /// bytes past the end.
    pub fn byte_idx(line: &str, char_col: usize) -> (r: usize)
        ensures
            r == byte_offset(line@, least(char_col as int, line@.len() as int)),
    {
        let total: usize = byte_len(line);
        let mut pos: usize = 0;
        let mut i: usize = 0;
        let mut it = line.chars();
        proof {
            assert(line@.skip(0) =~= line@);
            lemma_byte_offset_order(line@, 0, line@.len() as int);
            assert(line@.take(0) =~= Seq::<char>::empty());
        }
        while i < char_col
            invariant
                i <= char_col,
                i <= line@.len(),
                total == byte_offset(line@, line@.len() as int),
                pos == byte_offset(line@, i as int),
                vstd::std_specs::iter::IteratorSpec::remaining(&it) == line@.skip(i as int),
            decreases char_col - i,
        {
            match it.next() {
                Some(c) => {
                    proof {
                        assert(line@.skip(i as int)[0] == line@[i as int]);
                        assert(line@.skip(i as int).drop_first() =~= line@.skip(i + 1));
                        lemma_byte_offset_step(line@, i as int);
                        lemma_byte_offset_order(line@, i + 1, line@.len() as int);
                    }
                    pos = pos + utf8_len(c);
                    i = i + 1;
                },
                None => {
                    assert(line@.skip(i as int).len() == line@.len() - i);
                    return pos;
                },
            }
        }
        pos
    }

    /// The number of characters of line `row`.
    pub fn line_len(&self, row: usize) -> (r: usize)
        requires
            row < self@.lines.len(),
        ensures
            r == self@.lines[row as int].len(),
    {
        self.lines[row].as_str().unicode_len()
    }

    /// Types `ch` at the cursor.
    pub fn insert(&mut self, ch: char)
        requires
            old(self)@.has_line(),
            old(self)@.col < usize::MAX,
        ensures
            final(self)@ == old(self)@.inserted(ch),
    {
        let ghost before = self@;
        let row: usize = self.row;
        let mut line = substring(self.lines[row].as_str(), 0, self.col);
        line.push(ch);
        push_from(&mut line, self.lines[row].as_str(), self.col);
        assert(line@ =~= before.line().insert(before.at(), ch));
        self.lines.set(row, line);
        self.col = self.col + 1;
        assert(self@.lines =~= before.inserted(ch).lines);
    }

    /// Types the characters of `s` at the cursor, in order. `s` is meant to hold
    /// no line breaks.
    pub fn insert_str(&mut self, s: &str)
        requires
            old(self)@.has_line(),
            old(self)@.col + s@.len() <= usize::MAX,
        ensures
            final(self)@ == old(self)@.typed(s@),
    {
        let ghost before = self@;
        assert(s@.take(0) =~= Seq::<char>::empty());
        for c in it: s.chars()
            invariant
                it.seq() == s@,
                before == old(self)@,
                before.has_line(),
                before.col + s@.len() <= usize::MAX,
                self@ == before.typed(s@.take(it.index() as int)),
                self@.lines.len() == before.lines.len(),
                self@.row == before.row,
                self@.col == before.col + it.index(),
        {
            let ghost k = it.index() as int;
            proof {
                assert(s@.take(k + 1).drop_last() =~= s@.take(k));
                assert(s@.take(k + 1).last() == c);
            }
            self.insert(c);
        }
        assert(s@.take(s@.len() as int) =~= s@);
    }

    /// Breaks the line at the cursor; does nothing in a single-line editor.
    pub fn newline(&mut self)
        requires
            old(self)@.multiline ==> old(self)@.has_line(),
        ensures
            final(self)@ == old(self)@.broken(),
    {
        if !self.multiline {
            return ;
        }
        let ghost before = self@;
        let row: usize = self.row;
        let count: usize = self.lines.len();
        let head = substring(self.lines[row].as_str(), 0, self.col);
        let mut tail = String::new();
        push_from(&mut tail, self.lines[row].as_str(), self.col);
        assert(head@ =~= before.line().take(before.at()));
        assert(tail@ =~= before.line().skip(before.at()));
        self.lines.set(row, head);
        self.lines.insert(row + 1, tail);
        self.row = row + 1;
        self.col = 0;
        assert(self@.lines =~= before.broken().lines);
    }

    /// Deletes the character before the cursor; at the start of a line, joins it
    /// with the line before.
    pub fn backspace(&mut self)
        requires
            old(self)@.has_line() || (old(self)@.row == 0 && old(self)@.col == 0),
        ensures
            final(self)@ == old(self)@.rubbed_out(),
    {
        let ghost before = self@;
        let row: usize = self.row;
        if self.col > 0 {
            let mut line = substring(self.lines[row].as_str(), 0, self.col - 1);
            push_from(&mut line, self.lines[row].as_str(), self.col);
            proof {
                if before.col <= before.line().len() {
                    assert(line@ =~= before.line().remove(before.col - 1));
                } else {
                    assert(line@ =~= before.line());
                }
            }
            self.lines.set(row, line);
            self.col = self.col - 1;
            assert(self@.lines =~= before.rubbed_out().lines);
        } else if row > 0 {
            let cur = self.lines.remove(row);
            let mut line = self.lines[row - 1].clone();
            self.col = line.as_str().unicode_len();
            line.append(cur.as_str());
            self.lines.set(row - 1, line);
            self.row = row - 1;
            assert(self@.lines =~= before.rubbed_out().lines);
        }
    }

    /// Moves the cursor one character to the left, to the end of the line before
    /// at the start of a line.
    pub fn left(&mut self)
        requires
            old(self)@.col > 0 || old(self)@.row == 0 || old(self)@.row - 1 < old(
                self,
            )@.lines.len(),
        ensures
            final(self)@ == old(self)@.stepped_left(),
    {
        if self.col > 0 {
            self.col = self.col - 1;
        } else if self.row > 0 {
            let row: usize = self.row - 1;
            self.col = self.line_len(row);
            self.row = row;
        }
    }

    /// Moves the cursor one character to the right, to the start of the next line
    /// at the end of a line.
    pub fn right(&mut self)
        requires
            old(self)@.has_line(),
        ensures
            final(self)@ == old(self)@.stepped_right(),
    {
        let len: usize = self.line_len(self.row);
        let count: usize = self.lines.len();
        if self.col < len {
            self.col = self.col + 1;
        } else if self.row + 1 < count {
            self.row = self.row + 1;
            self.col = 0;
        }
    }

    /// Moves the cursor one line up, to the line's end where it is shorter.
    pub fn up(&mut self)
        requires
            old(self)@.row == 0 || old(self)@.row - 1 < old(self)@.lines.len(),
        ensures
            final(self)@ == old(self)@.stepped_up(),
    {
        if self.row > 0 {
            let row: usize = self.row - 1;
            let len: usize = self.line_len(row);
            self.row = row;
            if self.col > len {
                self.col = len;
            }
        }
    }

    /// Moves the cursor one line down, to the line's end where it is shorter.
    pub fn down(&mut self)
        ensures
            final(self)@ == old(self)@.stepped_down(),
    {
        if self.row < self.lines.len() && self.row + 1 < self.lines.len() {
            let row: usize = self.row + 1;
            let len: usize = self.line_len(row);
            self.row = row;
            if self.col > len {
                self.col = len;
            }
        }
    }

    /// Moves the cursor to the start of its line.
    pub fn home(&mut self)
        ensures
            final(self)@ == old(self)@.with_cursor(old(self)@.row as int, 0),
    {
        self.col = 0;
    }

    /// Moves the cursor to the end of its line.
    pub fn end(&mut self)
        requires
            old(self)@.has_line(),
        ensures
            final(self)@ == old(self)@.with_cursor(
                old(self)@.row as int,
                old(self)@.line().len() as int,
            ),
    {
        let len: usize = self.line_len(self.row);
        self.col = len;
    }

    // -----------------------------------------------------------------------
    // Selecting
    // -----------------------------------------------------------------------

    /// Begins a selection at the cursor, unless there is one.
    pub fn begin_selection_if_needed(&mut self)
        ensures
            final(self)@ == old(self)@.selecting(true),
    {
        if self.sel_anchor.is_none() {
            self.sel_anchor = Some((self.row, self.col));
        }
    }

    /// Gets ready for a move of the cursor: begins or keeps a selection where it
    /// is to be extended, and drops it otherwise.
    pub fn set_selecting(&mut self, extend: bool)
        ensures
            final(self)@ == old(self)@.selecting(extend),
    {
        if extend {
            self.begin_selection_if_needed();
        } else {
            self.clear_selection();
        }
    }

    /// Drops the selection.
    pub fn clear_selection(&mut self)
        ensures
            final(self)@ == old(self)@.selecting(false),
    {
        self.sel_anchor = None;
    }

    /// The ends of the selection in the order of the text; none where nothing is
    /// selected.
    pub fn selection_range(&self) -> (r: Option<((usize, usize), (usize, usize))>)
        ensures
            r == self@.selection(),
    {
        match self.sel_anchor {
            None => None,
            Some((row, col)) => {
                if row == self.row && col == self.col {
                    None
                } else if row < self.row || (row == self.row && col <= self.col) {
                    Some(((row, col), (self.row, self.col)))
                } else {
                    Some(((self.row, self.col), (row, col)))
                }
            },
        }
    }

    /// The selected text: from the start column on the first line, to the end
    /// column on the last, and all of the lines between.
    pub fn selected_text(&self) -> (r: Option<String>)
        requires
            self@.selection() matches Some(ends) ==> ends.1.0 < self@.lines.len(),
        ensures
            match self@.selection() {
                None => r is None,
                Some(ends) => r matches Some(text) && text@ == self@.selected(ends.0, ends.1),
            },
    {
        let (start, end) = match self.selection_range() {
            None => {
                return None;
            },
            Some(ends) => ends,
        };
        let ghost s = self@;
        let ghost pieces = Seq::new(
            (end.0 + 1 - start.0) as nat,
            |k: int| s.selected_piece(start, end, start.0 + k),
        );
        let count: usize = self.lines.len();
        let mut out = String::new();
        let mut row: usize = start.0;
        assert(pieces.take(0) =~= Seq::<Seq<char>>::empty());
        while row <= end.0
            invariant
                s == self@,
                count == s.lines.len(),
                start.0 <= row <= end.0 + 1,
                end.0 < s.lines.len(),
                pieces == Seq::new(
                    (end.0 + 1 - start.0) as nat,
                    |k: int| s.selected_piece(start, end, start.0 + k),
                ),
                out@ == join(pieces.take(row - start.0), newline()),
            decreases end.0 + 1 - row,
        {
            let ghost k = row - start.0;
            let ghost before = out@;
            if row > start.0 {
                out.push('\n');
                assert(out@ =~= before + newline());
            }
            let ghost with_sep = out@;
            let line: &str = self.lines[row].as_str();
            let from: usize = if row == start.0 {
                start.1
            } else {
                0
            };
            if row < end.0 {
                push_from(&mut out, line, from);
            } else if from <= end.1 {
                push_chars(&mut out, line, from, end.1);
            }
            proof {
                assert(s.lines[row as int] == line@);
                assert(out@ =~= with_sep + pieces[k]);
                assert(pieces.take(k + 1).drop_last() =~= pieces.take(k));
                assert(pieces.take(k + 1).last() == pieces[k]);
                if k == 0 {
                    assert(before =~= Seq::<char>::empty());
                    assert(out@ =~= pieces.take(1)[0]);
                }
            }
            row = row + 1;
        }
        assert(pieces.take(pieces.len() as int) =~= pieces);
        Some(out)
    }

    /// The position, as line and column, under the terminal cell `point`, given
    /// as column and row, when the editor is drawn into `area`. Cells outside the
    /// area stand for positions out of sight, which the next drawing reveals.
    pub fn point_to_row_col(&self, point: (u16, u16), area: Rect) -> (r: (usize, usize))
        requires
            self@.lines.len() > 0,
            self@.first_row(area.height as int) + 0xffff <= i64::MAX,
            self@.first_col(area.width as int) + 0xffff <= i64::MAX,
        ensures
            (r.0 as int, r.1 as int) == self@.pos_under(point, area),
    {
        let first_row: usize = self.row.saturating_sub((area.height as usize).saturating_sub(1));
        let first_col: usize = self.col.saturating_sub((area.width as usize).saturating_sub(1));
        let last_row: usize = self.lines.len() - 1;
        let wanted_row: i64 = first_row as i64 + (point.1 as i64 - area.y as i64);
        let row: usize = if wanted_row < 0 {
            0
        } else if (wanted_row as u64) < last_row as u64 {
            wanted_row as usize
        } else {
            last_row
        };
        let wanted_col: i64 = first_col as i64 + (point.0 as i64 - area.x as i64);
        let len: usize = self.line_len(row);
        let col: usize = if wanted_col < 0 {
            0
        } else if (wanted_col as u64) < len as u64 {
            wanted_col as usize
        } else {
            len
        };
        (row, col)
    }
}

// ---------------------------------------------------------------------------
// Keys
// ---------------------------------------------------------------------------

/// Whether a key can be applied: it needs a line under the cursor where it looks
/// at one, and room for one more column where it types.
pub open spec fn key_applies(s: EditorState, key: KeyEvent) -> bool {
    match key.code {
        KeyCode::Char(_) => s.has_line() && s.col < usize::MAX,
        KeyCode::Backspace => s.has_line() || (s.row == 0 && s.col == 0),
        KeyCode::Left => key.control || s.col > 0 || s.row == 0 || s.row - 1 < s.lines.len(),
        KeyCode::Right => s.has_line(),
        KeyCode::End => s.has_line(),
        _ => true,
    }
}

/// After a key of a single-line field was pressed.
pub open spec fn key_applied(s: EditorState, key: KeyEvent) -> EditorState {
    match key.code {
        KeyCode::Char(c) => s.inserted(c),
        KeyCode::Backspace => s.rubbed_out(),
        KeyCode::Left => if key.control {
            s.with_cursor(s.row as int, 0)
        } else {
            s.stepped_left()
        },
        KeyCode::Right => if key.control {
            s.with_cursor(s.row as int, s.line().len() as int)
        } else {
            s.stepped_right()
        },
        KeyCode::Home => s.with_cursor(s.row as int, 0),
        KeyCode::End => s.with_cursor(s.row as int, s.line().len() as int),
        _ => s,
    }
}

/// Applies a key of a single-line field: typing, deleting and moving; with the
/// control key the arrows go to the start and the end. Other keys do nothing.
pub fn apply_edit_key(ed: &mut Editor, key: KeyEvent)
    requires
        key_applies(old(ed)@, key),
    ensures
        final(ed)@ == key_applied(old(ed)@, key),
{
    match key.code {
        KeyCode::Char(c) => ed.insert(c),
        KeyCode::Backspace => ed.backspace(),
        KeyCode::Left => if key.control {
            ed.home()
        } else {
            ed.left()
        },
        KeyCode::Right => if key.control {
            ed.end()
        } else {
            ed.right()
        },
        KeyCode::Home => ed.home(),
        KeyCode::End => ed.end(),
        _ => {},
    }
}

// ---------------------------------------------------------------------------
// Drawing
// ---------------------------------------------------------------------------

/// The colours of an editor.
#[derive(Clone, Copy, Debug, PartialEq, Eq, Structural)]
pub struct EditorTheme {
    /// The text.
    pub text: Color,
    /// The background of a field that has the focus.
    pub panel: Color,
    /// The text of a field that has not the focus.
    pub dim: Color,
    /// The selected text.
    pub select_fg: Color,
    /// The background of selected text.
    pub select_bg: Color,
}

/// What marks a line that is cut off, in the last column.
#[derive(Clone, Copy, Debug, PartialEq, Eq, Structural)]
pub struct TruncationMarker {
    /// The character drawn in the last column, one cell wide.
    pub glyph: char,
    /// The style it is drawn with.
    pub style: Style,
}

impl Default for TruncationMarker {
    /// A dim ellipsis.
    fn default() -> (r: Self)
        ensures
            r.glyph == '\u{2026}',
            r.style == (Style { add_modifier: DIM, ..plain_style() }),
    {
        TruncationMarker {
            glyph: '\u{2026}',
            style: Style {
                fg: None,
                bg: None,
                underline_color: None,
                add_modifier: DIM,
                sub_modifier: 0,
            },
        }
    }
}

/// The style of text in one colour on another, each where it is given.
pub open spec fn colored(fg: Option<Color>, bg: Option<Color>) -> Style {
    Style { fg, bg, ..plain_style() }
}

/// The style of text in one colour on another, each where it is given.
fn color_style(fg: Option<Color>, bg: Option<Color>) -> (r: Style)
    ensures
        r == colored(fg, bg),
{
    Style { fg, bg, underline_color: None, add_modifier: 0, sub_modifier: 0 }
}

/// The `count` characters of `line` from `from` on, as far as there are any.
pub open spec fn part_of(line: Seq<char>, from: int, count: int) -> Seq<char> {
    line.subrange(
        least(from, line.len() as int),
        least(from + count, line.len() as int),
    )
}

/// `s` as it is shown: every character as a bullet where it is masked.
pub open spec fn shown(s: Seq<char>, masked: bool) -> Seq<char> {
    if masked {
        Seq::new(s.len(), |i: int| '\u{2022}')
    } else {
        s
    }
}

/// The `count` characters of `line` from `from` on, as they are shown.
fn visible_part(line: &str, from: usize, count: usize, masked: bool) -> (r: String)
    ensures
        r@ == shown(part_of(line@, from as int, count as int), masked),
{
    // No text is longer than numbers go.
    let _longest: usize = byte_len(line);
    let end: usize = from.saturating_add(count);
    let part = substring(line, from, end);
    assert(part@ =~= part_of(line@, from as int, count as int));
    if masked {
        bullets(part.as_str())
    } else {
        part
    }
}

/// A bullet for every character of `s`.
fn bullets(s: &str) -> (r: String)
    ensures
        r@ == shown(s@, true),
{
    let mut out = String::new();
    for c in it: s.chars()
        invariant
            it.seq() == s@,
            out@.len() == it.index(),
            forall|k: int| 0 <= k < out@.len() ==> #[trigger] out@[k] == '\u{2022}',
    {
        out.push('\u{2022}');
    }
    assert(out@ =~= shown(s@, true));
    out
}

/// What to draw of an editor.
pub struct EditorView {
    /// The rows of text, from the top.
    pub rows: Vec<String>,
    /// The style of the text.
    pub style: Style,
    /// The selected cells: row, first column and the column behind the last.
    pub selected: Vec<(u16, u16, u16)>,
    /// The style of selected cells.
    pub selected_style: Style,
    /// Where the terminal's cursor goes, as column and row.
    pub cursor: (u16, u16),
}

/// The rows of text that an area shows of an editor.
pub open spec fn editor_rows(s: EditorState, area: Rect, masked: bool) -> Seq<Seq<char>> {
    let first = s.first_row(area.height as int);
    Seq::new(
        greatest(least(area.height as int, s.lines.len() - first), 0) as nat,
        |k: int|
            shown(
                part_of(
                    s.lines[first + k],
                    s.first_col(area.width as int),
                    area.width + 1,
                ),
                masked,
            ),
    )
}

/// The selected columns of line `i`: the first and the one behind the last.
pub open spec fn selected_columns(
    s: EditorState,
    start: (usize, usize),
    end: (usize, usize),
    i: int,
) -> (int, int) {
    (
        if i == start.0 {
            start.1 as int
        } else {
            0
        },
        if i == end.0 {
            end.1 as int
        } else {
            s.lines[i].len() as int
        },
    )
}

/// The selected cells of row `k` of an area.
pub open spec fn editor_row_cells(
    s: EditorState,
    start: (usize, usize),
    end: (usize, usize),
    area: Rect,
    k: int,
) -> Seq<(int, int, int)> {
    let i = s.first_row(area.height as int) + k;
    let first = s.first_col(area.width as int);
    let columns = selected_columns(s, start, end, i);
    let from = greatest(columns.0, first);
    let to = least(columns.1, first + area.width);
    if i < s.lines.len() && start.0 <= i <= end.0 && from < to {
        seq![(area.y + k, area.x + from - first, area.x + to - first)]
    } else {
        Seq::<(int, int, int)>::empty()
    }
}

/// The selected cells of the first `n` rows of an area.
pub open spec fn editor_cells(
    s: EditorState,
    start: (usize, usize),
    end: (usize, usize),
    area: Rect,
    n: int,
) -> Seq<(int, int, int)>
    decreases n,
{
    if n <= 0 {
        Seq::<(int, int, int)>::empty()
    } else {
        editor_cells(s, start, end, area, n - 1) + editor_row_cells(s, start, end, area, n - 1)
    }
}

/// The cell of an area that the cursor stands in, as column and row.
pub open spec fn cursor_cell(s: EditorState, area: Rect) -> (int, int) {
    (
        area.x + s.col - s.first_col(area.width as int),
        area.y + s.row - s.first_row(area.height as int),
    )
}

/// What to draw of an editor in `area`: the part of its text around the cursor,
/// the selected cells, and the cursor. Where `masked`, every character is drawn
/// as a bullet. Nothing in an empty area.
pub fn render_editor(area: Rect, ed: &Editor, theme: &EditorTheme, masked: bool) -> (r: Option<
    EditorView,
>)
    requires
        area.x + area.width <= u16::MAX,
        area.rows_fit(),
    ensures
        r is None <==> area.width == 0 || area.height == 0,
        r matches Some(view) ==> {
            &&& texts(view.rows@) == editor_rows(ed@, area, masked)
            &&& view.style == colored(Some(theme.text), None)
            &&& view.selected_style == colored(Some(theme.select_fg), Some(theme.select_bg))
            &&& (view.cursor.0 as int, view.cursor.1 as int) == cursor_cell(ed@, area)
            &&& cell_numbers(view.selected@) == (match ed@.selection() {
                Some(ends) => editor_cells(ed@, ends.0, ends.1, area, area.height as int),
                None => Seq::<(int, int, int)>::empty(),
            })
        },
{
    if area.width == 0 || area.height == 0 {
        return None;
    }
    let height: usize = area.height as usize;
    let width: usize = area.width as usize;
    let first_row: usize = ed.row.saturating_sub(height - 1);
    let first_col: usize = ed.col.saturating_sub(width - 1);
    let rows = visible_rows(area, ed, first_row, first_col, masked);
    let selected = match ed.selection_range() {
        Some((start, end)) => selected_cells(area, ed, first_row, first_col, start, end),
        None => {
            let none: Vec<(u16, u16, u16)> = Vec::new();
            assert(cell_numbers(none@) =~= Seq::<(int, int, int)>::empty());
            none
        },
    };
    Some(
        EditorView {
            rows,
            style: color_style(Some(theme.text), None),
            selected,
            selected_style: color_style(Some(theme.select_fg), Some(theme.select_bg)),
            cursor: (
                area.x + (ed.col - first_col) as u16,
                area.y + (ed.row - first_row) as u16,
            ),
        },
    )
}

/// The rows of text that an area shows of an editor.
fn visible_rows(
    area: Rect,
    ed: &Editor,
    first_row: usize,
    first_col: usize,
    masked: bool,
) -> (r: Vec<String>)
    requires
        first_row == ed@.first_row(area.height as int),
        first_col == ed@.first_col(area.width as int),
    ensures
        texts(r@) == editor_rows(ed@, area, masked),
{
    let ghost s = ed@;
    let mut rows: Vec<String> = Vec::new();
    let mut k: usize = 0;
    let count: usize = ed.lines.len();
    while k < area.height as usize && first_row < count && k < count - first_row
        invariant
            s == ed@,
            count == s.lines.len(),
            first_row == s.first_row(area.height as int),
            first_col == s.first_col(area.width as int),
            k <= area.height,
            k > 0 ==> first_row + k <= count,
            rows@.len() == k,
            forall|i: int|
                0 <= i < k ==> (#[trigger] rows@[i])@ == shown(
                    part_of(s.lines[first_row + i], first_col as int, area.width + 1),
                    masked,
                ),
        decreases area.height - k,
    {
        rows.push(
            visible_part(
                ed.lines[first_row + k].as_str(),
                first_col,
                area.width as usize + 1,
                masked,
            ),
        );
        k = k + 1;
    }
    assert(texts(rows@) =~= editor_rows(s, area, masked));
    rows
}

/// The selected cells of an area.
fn selected_cells(
    area: Rect,
    ed: &Editor,
    first_row: usize,
    first_col: usize,
    start: (usize, usize),
    end: (usize, usize),
) -> (r: Vec<(u16, u16, u16)>)
    requires
        area.x + area.width <= u16::MAX,
        area.rows_fit(),
        first_row == ed@.first_row(area.height as int),
        first_col == ed@.first_col(area.width as int),
    ensures
        cell_numbers(r@) == editor_cells(ed@, start, end, area, area.height as int),
{
    let ghost s = ed@;
    let mut out: Vec<(u16, u16, u16)> = Vec::new();
    let count: usize = ed.lines.len();
    let mut k: u16 = 0;
    assert(cell_numbers(out@) =~= Seq::<(int, int, int)>::empty());
    while k < area.height
        invariant
            area.x + area.width <= u16::MAX,
            area.rows_fit(),
            s == ed@,
            count == s.lines.len(),
            first_row == s.first_row(area.height as int),
            first_col == s.first_col(area.width as int),
            k <= area.height,
            cell_numbers(out@) == editor_cells(s, start, end, area, k as int),
        decreases area.height - k,
    {
        let ghost before = cell_numbers(out@);
        let ghost cells = editor_row_cells(s, start, end, area, k as int);
        if first_row < count && (k as usize) < count - first_row {
            let i: usize = first_row + k as usize;
            if start.0 <= i && i <= end.0 {
                let len: usize = ed.line_len(i);
                let from: usize = if i == start.0 && start.1 > first_col {
                    start.1
                } else {
                    first_col
                };
                let behind: usize = if i == end.0 {
                    end.1
                } else {
                    len
                };
                let edge: usize = first_col.saturating_add(area.width as usize);
                let to: usize = if behind < edge {
                    behind
                } else {
                    edge
                };
                if from < to {
                    let cell: (u16, u16, u16) = (
                        area.y + k,
                        area.x + (from - first_col) as u16,
                        area.x + (to - first_col) as u16,
                    );
                    out.push(cell);
                    proof {
                        let number = (cell.0 as int, cell.1 as int, cell.2 as int);
                        assert(cells =~= seq![number]);
                        assert(cell_numbers(out@) =~= before.push(number));
                    }
                }
            }
        }
        assert(cell_numbers(out@) =~= before + cells);
        k = k + 1;
    }
    out
}

/// What to draw of a single-line field.
pub struct FieldView {
    /// The text in sight.
    pub text: String,
    /// Its style.
    pub style: Style,
    /// Where the terminal's cursor goes, as column and row; nowhere without the
    /// focus.
    pub cursor: Option<(u16, u16)>,
}

/// What to draw of a single-line editor in `area`: the part of its text around
/// the cursor, as bullets where it is masked, and the cursor where the field has
/// the focus. Nothing in an area without columns.
pub fn render_line_field(
    area: Rect,
    ed: &Editor,
    theme: &EditorTheme,
    focused: bool,
    mask: bool,
) -> (r: Option<FieldView>)
    requires
        area.columns_fit(),
    ensures
        r is None <==> area.width == 0,
        r matches Some(view) ==> {
            &&& view.text@ == shown(
                part_of(ed@.text(), ed@.first_col(area.width as int), area.width as int),
                mask,
            )
            &&& view.style == (if focused {
                colored(Some(theme.text), Some(theme.panel))
            } else {
                colored(Some(theme.dim), None)
            })
            &&& view.cursor is Some == focused
            &&& view.cursor matches Some(cell) ==> cell.0 == area.x + ed@.col - ed@.first_col(
                area.width as int,
            ) && cell.1 == area.y
            &&& view.cursor matches Some(cell) ==> area.x <= cell.0 < area.x + area.width
        },
{
    if area.width == 0 {
        return None;
    }
    let width: usize = area.width as usize;
    let first_col: usize = ed.col.saturating_sub(width - 1);
    let text = ed.text();
    Some(
        FieldView {
            text: visible_part(text.as_str(), first_col, width, mask),
            style: if focused {
                color_style(Some(theme.text), Some(theme.panel))
            } else {
                color_style(Some(theme.dim), None)
            },
            cursor: if focused {
                Some((area.x + (ed.col - first_col) as u16, area.y))
            } else {
                None
            },
        },
    )
}

/// A marker and the cell it is drawn in.
#[derive(Clone, Copy, Debug, PartialEq, Eq, Structural)]
pub struct MarkerCell {
    /// The cell.
    pub area: Rect,
    /// What is drawn there.
    pub marker: TruncationMarker,
}

/// What to draw of a line that is only shown.
#[derive(Clone, Copy, Debug, PartialEq, Eq, Structural)]
pub struct ClippedView {
    /// The style of the text.
    pub style: Style,
    /// The marker to draw over the text, where the text is cut off.
    pub marker: Option<MarkerCell>,
}

/// What to draw of the line `text` in `area`: itself in `color`, and over its
/// last column in sight the `marker`, where there is one and the text has more
/// characters than the area has columns. Nothing in an area without columns.
pub fn render_clipped_line(
    area: Rect,
    text: &str,
    color: Color,
    marker: Option<TruncationMarker>,
) -> (r: Option<ClippedView>)
    requires
        area.columns_fit(),
    ensures
        r == (if area.width == 0 {
            None
        } else {
            Some(
                ClippedView {
                    style: colored(Some(color), None),
                    marker: if marker is Some && text@.len() > area.width {
                        Some(
                            MarkerCell {
                                area: Rect {
                                    x: (area.x + area.width - 1) as u16,
                                    y: area.y,
                                    width: 1,
                                    height: 1,
                                },
                                marker: marker->0,
                            },
                        )
                    } else {
                        None
                    },
                },
            )
        }),
{
    if area.width == 0 {
        return None;
    }
    let cell: Option<MarkerCell> = match marker {
        Some(marker) => if text.unicode_len() > area.width as usize {
            let last = Rect { x: area.x + (area.width - 1), y: area.y, width: 1, height: 1 };
            Some(MarkerCell { area: last, marker })
        } else {
            None
        },
        None => None,
    };
    Some(ClippedView { style: color_style(Some(color), None), marker: cell })
}

// ---------------------------------------------------------------------------
// Laws
// ---------------------------------------------------------------------------

/// Whether a state is one that an editor can be in.
pub open spec fn representable(s: EditorState) -> bool {
    &&& s.lines.len() <= usize::MAX
    &&& forall|i: int| 0 <= i < s.lines.len() ==> (#[trigger] s.lines[i]).len() <= usize::MAX
}

/// An editor gives back the text that it was made with.
pub proof fn law_text_is_kept(text: Seq<char>, s: EditorState)
    requires
        s.lines == split_newlines(text),
    ensures
        s.text() == text,
        s.lines.len() > 0,
{
    law_join_undoes_split(text);
}

/// An editor is opened with all of its text before the cursor and none behind it,
/// and nothing selected.
pub proof fn law_cursor_starts_at_the_end(text: Seq<char>, multiline: bool)
    requires
        representable(opened(text, multiline)),
    ensures
        ({
            let s = opened(text, multiline);
            &&& s.text() == text
            &&& s.cursor_in_text()
            &&& text_before(s.lines, s.row as int, s.col as int) == text
            &&& text_after(s.lines, s.row as int, s.col as int).len() == 0
            &&& s.selection() is None
            &&& s.multiline == multiline
        }),
{
    let s = opened(text, multiline);
    let row = s.row as int;
    law_text_is_kept(text, s);
    assert(s.lines[row].len() <= usize::MAX);
    assert(s.line().take(s.col as int) =~= s.line());
    assert(s.lines.take(row).push(s.line()) =~= s.lines);
    let behind = seq![s.line().skip(s.col as int)] + s.lines.skip(row + 1);
    assert(behind.len() == 1);
    assert(behind[0].len() == 0);
}

/// Deleting undoes typing.
pub proof fn law_backspace_undoes_insert(s: EditorState, ch: char)
    requires
        s.cursor_in_text(),
        s.col < usize::MAX,
    ensures
        s.inserted(ch).rubbed_out() == s,
{
    let next = s.inserted(ch);
    assert(next.line() == s.line().insert(s.at(), ch));
    assert(next.line().remove(next.col - 1) =~= s.line());
    assert(next.rubbed_out().lines =~= s.lines);
}

/// Deleting undoes a line break.
pub proof fn law_backspace_undoes_newline(s: EditorState)
    requires
        s.multiline,
        s.cursor_in_text(),
        s.row < usize::MAX,
    ensures
        s.broken().rubbed_out() == s,
{
    let next = s.broken();
    let head = s.line().take(s.at());
    let tail = s.line().skip(s.at());
    assert(next.lines[next.row - 1] == head);
    assert(next.line() == tail);
    assert(head + tail =~= s.line());
    assert(next.rubbed_out().lines =~= s.lines);
}

/// A step to the right undoes one to the left, but at the start of the text.
pub proof fn law_right_undoes_left(s: EditorState)
    requires
        s.cursor_in_text(),
        representable(s),
        s.row > 0 || s.col > 0,
    ensures
        s.stepped_left().stepped_right() == s,
{
    if s.col == 0 {
        assert(s.lines[s.row - 1].len() <= usize::MAX);
    }
}

/// A step to the left undoes one to the right, but at the end of the text.
pub proof fn law_left_undoes_right(s: EditorState)
    requires
        s.cursor_in_text(),
        representable(s),
        s.row + 1 < s.lines.len() || s.col < s.line().len(),
    ensures
        s.stepped_right().stepped_left() == s,
{
    assert(s.line().len() <= usize::MAX);
}

/// Whatever is typed, deleted or stepped over, the cursor stays in the text.
pub proof fn law_cursor_stays_in_text(s: EditorState, ch: char)
    requires
        s.cursor_in_text(),
        representable(s),
        s.col < usize::MAX,
        s.row < usize::MAX,
    ensures
        s.inserted(ch).cursor_in_text(),
        s.broken().cursor_in_text(),
        s.rubbed_out().cursor_in_text(),
        s.stepped_left().cursor_in_text(),
        s.stepped_right().cursor_in_text(),
        s.stepped_up().cursor_in_text(),
        s.stepped_down().cursor_in_text(),
        s.with_cursor(s.row as int, 0).cursor_in_text(),
        s.with_cursor(s.row as int, s.line().len() as int).cursor_in_text(),
{
    assert(s.line().len() <= usize::MAX);
    assert(s.row > 0 ==> s.lines[s.row - 1].len() <= usize::MAX);
    assert(s.row + 1 < s.lines.len() ==> s.lines[s.row + 1].len() <= usize::MAX);
    if s.col == 0 && s.row > 0 {
        assert(s.rubbed_out().lines[s.row - 1] == s.lines[s.row - 1] + s.line());
    }
    assert(s.broken().multiline ==> s.broken().lines[s.row + 1] == s.line().skip(s.at()));
}

/// Typing puts the characters in at the cursor, in order, and nothing else
/// changes.
pub proof fn law_typing_puts_text_in(s: EditorState, t: Seq<char>)
    requires
        s.cursor_in_text(),
        s.col + t.len() <= usize::MAX,
    ensures
        s.typed(t).lines == s.lines.update(
            s.row as int,
            s.line().take(s.col as int) + t + s.line().skip(s.col as int),
        ),
        s.typed(t).row == s.row,
        s.typed(t).col == s.col + t.len(),
        s.typed(t).sel_anchor == s.sel_anchor,
    decreases t.len(),
{
    let head = s.line().take(s.col as int);
    let tail = s.line().skip(s.col as int);
    if t.len() == 0 {
        assert(head + t + tail =~= s.line());
        assert(s.lines.update(s.row as int, s.line()) =~= s.lines);
    } else {
        law_typing_puts_text_in(s, t.drop_last());
        let before = s.typed(t.drop_last());
        assert((head + t.drop_last() + tail).insert(s.col + t.len() - 1, t.last()) =~= head + t
            + tail);
        assert(before.line() == head + t.drop_last() + tail);
        assert(s.typed(t).lines =~= s.lines.update(s.row as int, head + t + tail));
    }
}

/// The selection does not depend on which of its ends the cursor is at.
pub proof fn law_selection_has_no_direction(s: EditorState, row: usize, col: usize)
    requires
        s.sel_anchor == Some((row, col)),
    ensures
        s.selection() == (EditorState {
            row,
            col,
            sel_anchor: Some((s.row, s.col)),
            ..s
        }).selection(),
{
}

/// The cursor is drawn inside the area, and a click on it leads back to it.
pub proof fn law_cursor_in_sight(s: EditorState, area: Rect)
    requires
        s.cursor_in_text(),
        area.width > 0,
        area.height > 0,
        area.x + area.width <= u16::MAX,
        area.y + area.height <= u16::MAX,
    ensures
        area.x <= cursor_cell(s, area).0 < area.x + area.width,
        area.y <= cursor_cell(s, area).1 < area.y + area.height,
        s.pos_under(
            (cursor_cell(s, area).0 as u16, cursor_cell(s, area).1 as u16),
            area,
        ) == (s.row as int, s.col as int),
{
}

/// A masked text shows how long it is and nothing else.
pub proof fn law_mask_hides_text(a: Seq<char>, b: Seq<char>)
    requires
        a.len() == b.len(),
    ensures
        shown(a, true) == shown(b, true),
        shown(a, true).len() == a.len(),
{
    assert(shown(a, true) =~= shown(b, true));
}

/// The text before a position.
pub open spec fn text_before(lines: Seq<Seq<char>>, row: int, col: int) -> Seq<char> {
    join(lines.take(row).push(lines[row].take(col)), newline())
}

/// The text from a position on.
pub open spec fn text_after(lines: Seq<Seq<char>>, row: int, col: int) -> Seq<char> {
    join(seq![lines[row].skip(col)] + lines.skip(row + 1), newline())
}

/// Two joined texts one after the other are one, in which the last part of the
/// first and the first part of the second have grown together.
proof fn lemma_join_grown(a: Seq<Seq<char>>, b: Seq<Seq<char>>)
    requires
        a.len() > 0,
        b.len() > 0,
    ensures
        join(a, newline()) + join(b, newline()) == join(
            a.drop_last().push(a.last() + b[0]) + b.drop_first(),
            newline(),
        ),
{
    let nl = newline();
    let head = a.drop_last();
    let mid = a.last() + b[0];
    let tail = b.drop_first();
    let first = seq![b[0]];
    law_join_puts_separators_between(first, tail, b[0], nl);
    assert(first + tail =~= b);
    law_join_puts_separators_between(head.push(mid), tail, mid, nl);
    assert(head.push(mid).drop_last() =~= head);
    let start = if head.len() == 0 {
        Seq::<char>::empty()
    } else {
        join(head, nl) + nl
    };
    let end = if tail.len() == 0 {
        Seq::<char>::empty()
    } else {
        nl + join(tail, nl)
    };
    assert(join(a, nl) =~= start + a.last());
    if tail.len() == 0 {
        assert(first =~= b);
        assert(head.push(mid) + tail =~= head.push(mid));
    }
    assert(join(b, nl) =~= b[0] + end);
    assert(join(head.push(mid), nl) =~= start + mid);
    assert(join(head.push(mid) + tail, nl) =~= start + mid + end);
    assert(join(a, nl) + join(b, nl) =~= start + mid + end);
}

/// A text is what stands before a position and what stands from it on.
pub proof fn law_position_cuts_text_in_two(s: EditorState, row: int, col: int)
    requires
        0 <= row < s.lines.len(),
        0 <= col <= s.lines[row].len(),
    ensures
        text_before(s.lines, row, col) + text_after(s.lines, row, col) == s.text(),
{
    let line = s.lines[row];
    let a = s.lines.take(row).push(line.take(col));
    let b = seq![line.skip(col)] + s.lines.skip(row + 1);
    lemma_join_grown(a, b);
    assert(line.take(col) + line.skip(col) =~= line);
    assert(a.drop_last().push(a.last() + b[0]) + b.drop_first() =~= s.lines);
}

/// The selected text is the part of the text between the selection's ends: with
/// what stands before the one and from the other on, it makes up the whole text.
/// Within a line it has as many characters as there are columns between the ends.
pub proof fn law_selection_is_the_part_between(
    s: EditorState,
    start: (usize, usize),
    end: (usize, usize),
)
    requires
        start.0 < end.0 || (start.0 == end.0 && start.1 <= end.1),
        end.0 < s.lines.len(),
        start.1 <= s.lines[start.0 as int].len(),
        end.1 <= s.lines[end.0 as int].len(),
    ensures
        text_before(s.lines, start.0 as int, start.1 as int) + s.selected(start, end)
            == text_before(s.lines, end.0 as int, end.1 as int),
        text_before(s.lines, start.0 as int, start.1 as int) + s.selected(start, end) + text_after(
            s.lines,
            end.0 as int,
            end.1 as int,
        ) == s.text(),
        start.0 == end.0 ==> s.selected(start, end).len() == end.1 - start.1,
{
    let top = start.0 as int;
    let bottom = end.0 as int;
    let pieces = Seq::new(
        (end.0 + 1 - start.0) as nat,
        |k: int| s.selected_piece(start, end, start.0 + k),
    );
    let a = s.lines.take(top).push(s.lines[top].take(start.1 as int));
    let grown = a.drop_last().push(a.last() + pieces[0]) + pieces.drop_first();
    let upto = s.lines.take(bottom).push(s.lines[bottom].take(end.1 as int));
    lemma_join_grown(a, pieces);
    assert(grown.len() == upto.len());
    assert forall|i: int| 0 <= i < upto.len() implies grown[i] == upto[i] by {
        if i > top {
            assert(grown[i] == pieces[i - top]);
        }
        assert(grown[i] =~= upto[i]);
    }
    assert(grown =~= upto);
    law_position_cuts_text_in_two(s, bottom, end.1 as int);
    if top == bottom {
        assert(pieces =~= seq![pieces[0]]);
    }
}

/// One more character at the end of the last part is one more at the end of the
/// joined text.
proof fn lemma_join_push(head: Seq<Seq<char>>, last: Seq<char>, ch: char)
    ensures
        join(head.push(last.push(ch)), newline()) == join(head.push(last), newline()).push(ch),
{
    assert(head.push(last.push(ch)).drop_last() =~= head);
    assert(head.push(last).drop_last() =~= head);
    assert(join(head.push(last.push(ch)), newline()) =~= join(head.push(last), newline()).push(
        ch,
    ));
}

/// Typing puts one character between what stands before the cursor and what
/// stands behind it, and the cursor goes behind it.
pub proof fn law_typing_is_one_more_character(s: EditorState, ch: char)
    requires
        s.cursor_in_text(),
        s.col < usize::MAX,
    ensures
        ({
            let next = s.inserted(ch);
            let before = text_before(s.lines, s.row as int, s.col as int);
            let after = text_after(s.lines, s.row as int, s.col as int);
            &&& next.text() == before.push(ch) + after
            &&& text_before(next.lines, next.row as int, next.col as int) == before.push(ch)
            &&& text_after(next.lines, next.row as int, next.col as int) == after
            &&& next.multiline == s.multiline
            &&& next.sel_anchor == s.sel_anchor
        }),
{
    let next = s.inserted(ch);
    let row = s.row as int;
    let col = s.col as int;
    let head = s.lines.take(row);
    lemma_join_push(head, s.line().take(col), ch);
    assert(next.lines.take(row) =~= head);
    assert(next.line().take(col + 1) =~= s.line().take(col).push(ch));
    assert(next.line().skip(col + 1) =~= s.line().skip(col));
    assert(next.lines.skip(row + 1) =~= s.lines.skip(row + 1));
    law_position_cuts_text_in_two(next, row, col + 1);
}

/// Breaking a line puts a line feed between what stands before the cursor and
/// what stands behind it, and the cursor goes behind it. In a single-line editor
/// nothing happens.
pub proof fn law_breaking_is_one_more_line_feed(s: EditorState)
    requires
        s.cursor_in_text(),
        s.row < usize::MAX,
    ensures
        ({
            let next = s.broken();
            let before = text_before(s.lines, s.row as int, s.col as int);
            let after = text_after(s.lines, s.row as int, s.col as int);
            &&& !s.multiline ==> next == s
            &&& s.multiline ==> {
                &&& next.text() == before.push('\n') + after
                &&& text_before(next.lines, next.row as int, next.col as int) == before.push('\n')
                &&& text_after(next.lines, next.row as int, next.col as int) == after
                &&& next.sel_anchor == s.sel_anchor
            }
        }),
{
    if s.multiline {
        let next = s.broken();
        let row = s.row as int;
        let col = s.col as int;
        let head = s.lines.take(row).push(s.line().take(col));
        assert(next.lines.take(row + 1) =~= head);
        assert(next.line().take(0) =~= Seq::<char>::empty());
        assert(next.line().skip(0) =~= s.line().skip(col));
        assert(next.lines.skip(row + 2) =~= s.lines.skip(row + 1));
        let ended = head.push(Seq::<char>::empty());
        assert(ended.drop_last() =~= head);
        assert(join(ended, newline()) =~= join(head, newline()).push('\n'));
        law_position_cuts_text_in_two(next, row + 1, 0);
    }
}

/// Deleting takes the last character of what stands before the cursor out of the
/// text, be it a line feed, and leaves what stands behind it. At the start of the
/// text nothing happens.
pub proof fn law_deleting_is_one_character_less(s: EditorState)
    requires
        s.cursor_in_text(),
        representable(s),
    ensures
        ({
            let next = s.rubbed_out();
            let before = text_before(s.lines, s.row as int, s.col as int);
            let after = text_after(s.lines, s.row as int, s.col as int);
            &&& s.row == 0 && s.col == 0 ==> next == s
            &&& s.row > 0 || s.col > 0 ==> {
                &&& before.len() > 0
                &&& next.text() == before.drop_last() + after
                &&& text_before(next.lines, next.row as int, next.col as int)
                    == before.drop_last()
                &&& text_after(next.lines, next.row as int, next.col as int) == after
                &&& next.multiline == s.multiline
                &&& next.sel_anchor == s.sel_anchor
            }
        }),
{
    let next = s.rubbed_out();
    if s.col > 0 {
        let ch = s.line()[s.col - 1];
        assert(next.line().insert(s.col - 1, ch) =~= s.line());
        assert(next.inserted(ch).lines =~= s.lines);
        law_typing_is_one_more_character(next, ch);
        law_position_cuts_text_in_two(next, next.row as int, next.col as int);
        let before = text_before(next.lines, next.row as int, next.col as int);
        assert(before.push(ch).drop_last() =~= before);
    } else if s.row > 0 {
        let above = s.lines[s.row - 1];
        assert(above.len() <= usize::MAX);
        let open = EditorState { multiline: true, ..next };
        assert(open.line() == above + s.line());
        assert(open.line().take(above.len() as int) =~= above);
        assert(open.line().skip(above.len() as int) =~= s.line());
        assert(open.broken().lines =~= s.lines);
        law_breaking_is_one_more_line_feed(open);
        law_position_cuts_text_in_two(next, next.row as int, next.col as int);
        let before = text_before(next.lines, next.row as int, next.col as int);
        assert(before.push('\n').drop_last() =~= before);
    }
}

/// A step to the left leaves the text as it is and goes over one character of it,
/// be it a line feed; at the start of the text nothing happens.
pub proof fn law_left_goes_over_one_character(s: EditorState)
    requires
        s.cursor_in_text(),
        representable(s),
    ensures
        ({
            let next = s.stepped_left();
            let before = text_before(s.lines, s.row as int, s.col as int);
            &&& next.lines == s.lines
            &&& next.sel_anchor == s.sel_anchor
            &&& s.row == 0 && s.col == 0 ==> next == s
            &&& s.row > 0 || s.col > 0 ==> before.len() > 0 && text_before(
                next.lines,
                next.row as int,
                next.col as int,
            ) == before.drop_last()
        }),
{
    let row = s.row as int;
    let before = text_before(s.lines, row, s.col as int);
    if s.col > 0 {
        let ch = s.line()[s.col - 1];
        let less = s.line().take(s.col - 1);
        assert(less.push(ch) =~= s.line().take(s.col as int));
        lemma_join_push(s.lines.take(row), less, ch);
        assert(before.drop_last() =~= text_before(s.lines, row, s.col - 1));
    } else if s.row > 0 {
        let above = s.lines[row - 1];
        assert(above.len() <= usize::MAX);
        assert(above.take(above.len() as int) =~= above);
        assert(s.lines.take(row - 1).push(above) =~= s.lines.take(row));
        let ended = s.lines.take(row).push(s.line().take(0));
        assert(ended.drop_last() =~= s.lines.take(row));
        assert(before =~= join(s.lines.take(row), newline()).push('\n'));
        assert(before.drop_last() =~= join(s.lines.take(row), newline()));
    }
}

/// A step to the right leaves the text as it is and goes over one character of
/// it, be it a line feed; at the end of the text nothing happens.
pub proof fn law_right_goes_over_one_character(s: EditorState)
    requires
        s.cursor_in_text(),
        representable(s),
    ensures
        ({
            let next = s.stepped_right();
            let before = text_before(next.lines, next.row as int, next.col as int);
            let last = s.row + 1 == s.lines.len() && s.col == s.line().len();
            &&& next.lines == s.lines
            &&& next.sel_anchor == s.sel_anchor
            &&& last ==> next == s
            &&& !last ==> before.len() > 0 && text_before(s.lines, s.row as int, s.col as int)
                == before.drop_last()
        }),
{
    if s.row + 1 < s.lines.len() || s.col < s.line().len() {
        assert(s.line().len() <= usize::MAX);
        law_left_undoes_right(s);
        law_left_goes_over_one_character(s.stepped_right());
    }
}

/// A step up or down goes to the neighbouring line, not past the first and the
/// last, and keeps the column; in a shorter line it goes to the line's end.
pub proof fn law_steps_keep_the_column(s: EditorState)
    requires
        s.has_line(),
        representable(s),
    ensures
        ({
            let up = s.stepped_up();
            let down = s.stepped_down();
            &&& up.lines == s.lines && down.lines == s.lines
            &&& up.sel_anchor == s.sel_anchor && down.sel_anchor == s.sel_anchor
            &&& s.row == 0 ==> up == s
            &&& s.row > 0 ==> ({
                let len = s.lines[s.row - 1].len();
                &&& up.row == s.row - 1
                &&& s.col <= len ==> up.col == s.col
                &&& s.col > len ==> up.col == len
            })
            &&& s.row + 1 == s.lines.len() ==> down == s
            &&& s.row + 1 < s.lines.len() ==> ({
                let len = s.lines[s.row + 1].len();
                &&& down.row == s.row + 1
                &&& s.col <= len ==> down.col == s.col
                &&& s.col > len ==> down.col == len
            })
        }),
{
    assert(s.row > 0 ==> s.lines[s.row - 1].len() <= usize::MAX);
    assert(s.row + 1 < s.lines.len() ==> s.lines[s.row + 1].len() <= usize::MAX);
}

/// There is a selection where it was begun and the cursor has moved away from
/// there. Its ends are that place and the cursor, the earlier one first.
pub proof fn law_selection_ends_where_it_was_begun(s: EditorState)
    ensures
        ({
            let cursor = (s.row, s.col);
            match s.selection() {
                None => s.sel_anchor is None || s.sel_anchor == Some(cursor),
                Some((start, end)) => {
                    &&& s.sel_anchor is Some
                    &&& (start == s.sel_anchor->0 && end == cursor) || (start == cursor && end
                        == s.sel_anchor->0)
                    &&& start.0 < end.0 || (start.0 == end.0 && start.1 < end.1)
                },
            }
        }),
{
}

/// What is in sight begins at the start of the text as long as the cursor is in
/// sight then, and ends with the cursor otherwise. Where there is no room it begins
/// with the cursor.
pub proof fn law_view_moves_no_more_than_needed(s: EditorState, area: Rect)
    ensures
        s.row < area.height ==> s.first_row(area.height as int) == 0,
        0 < area.height <= s.row ==> s.row - s.first_row(area.height as int) == area.height - 1,
        area.height == 0 ==> s.first_row(area.height as int) == s.row,
        s.col < area.width ==> s.first_col(area.width as int) == 0,
        0 < area.width <= s.col ==> s.col - s.first_col(area.width as int) == area.width - 1,
        area.width == 0 ==> s.first_col(area.width as int) == s.col,
{
}

/// A terminal cell stands for the character as far right of the first one in
/// sight, and as far below it, as the cell is from the area's corner, in sight or
/// not; past an end of the text or of a line, for that end.
pub proof fn law_point_stands_for_what_is_there(s: EditorState, point: (u16, u16), area: Rect)
    requires
        s.lines.len() > 0,
    ensures
        ({
            let row = s.first_row(area.height as int) + point.1 - area.y;
            let col = s.first_col(area.width as int) + point.0 - area.x;
            let pos = s.pos_under(point, area);
            let len = s.lines[pos.0].len();
            &&& 0 <= row < s.lines.len() ==> pos.0 == row
            &&& row < 0 ==> pos.0 == 0
            &&& row >= s.lines.len() ==> pos.0 == s.lines.len() - 1
            &&& 0 <= col <= len ==> pos.1 == col
            &&& col < 0 ==> pos.1 == 0
            &&& col > len ==> pos.1 == len
        }),
{
}

/// The part that is cut out of a line holds the line's own characters, as many as
/// were asked for or there are.
pub proof fn law_part_is_cut_out(line: Seq<char>, from: int, count: int, j: int)
    requires
        0 <= from,
        0 <= j < count,
    ensures
        from + j < line.len() ==> j < part_of(line, from, count).len() && part_of(
            line,
            from,
            count,
        )[j] == line[from + j],
        from + j >= line.len() ==> j >= part_of(line, from, count).len(),
        part_of(line, from, count).len() <= count,
{
}

/// Every row of an area shows the line that is there, from the first column in
/// sight on: its own characters, or as many bullets where it is masked.
pub proof fn law_rows_show_the_text(s: EditorState, area: Rect, masked: bool, k: int, j: int)
    requires
        0 <= k < area.height,
        0 <= j <= area.width,
    ensures
        ({
            let rows = editor_rows(s, area, masked);
            let i = s.first_row(area.height as int) + k;
            let c = s.first_col(area.width as int) + j;
            &&& rows.len() <= area.height
            &&& k < rows.len() <==> i < s.lines.len()
            &&& i < s.lines.len() ==> {
                &&& j < rows[k].len() <==> c < s.lines[i].len()
                &&& c < s.lines[i].len() && !masked ==> rows[k][j] == s.lines[i][c]
                &&& c < s.lines[i].len() && masked ==> rows[k][j] == '\u{2022}'
            }
        }),
{
}

/// A cell in sight is drawn as selected exactly if its line and column are at the
/// selection's start or behind, and before its end, and on the lines above the last
/// one also before the end of the line.
pub proof fn law_drawn_selection_is_the_selection(
    s: EditorState,
    start: (usize, usize),
    end: (usize, usize),
    area: Rect,
    k: int,
    j: int,
)
    requires
        0 <= k < area.height,
        0 <= j < area.width,
    ensures
        ({
            let i = s.first_row(area.height as int) + k;
            let c = s.first_col(area.width as int) + j;
            covers(
                editor_cells(s, start, end, area, area.height as int),
                area.y + k,
                area.x + j,
            ) <==> {
                &&& i < s.lines.len()
                &&& start.0 < i || (start.0 == i && start.1 <= c)
                &&& (i < end.0 && c < s.lines[i].len()) || (i == end.0 && c < end.1)
            }
        }),
{
    let i = s.first_row(area.height as int) + k;
    let c = s.first_col(area.width as int) + j;
    let n = area.height as int;
    let all = editor_cells(s, start, end, area, n);
    let own = editor_row_cells(s, start, end, area, k);
    let inside = {
        &&& i < s.lines.len()
        &&& start.0 < i || (start.0 == i && start.1 <= c)
        &&& (i < end.0 && c < s.lines[i].len()) || (i == end.0 && c < end.1)
    };
    assert(inside <==> own.len() == 1 && own[0].1 <= area.x + j < own[0].2);
    if own.len() == 1 && own[0].1 <= area.x + j < own[0].2 {
        let at = lemma_editor_cell_of_row(s, start, end, area, n, k);
        assert(all[at] == own[0]);
    }
    if covers(all, area.y + k, area.x + j) {
        let at = choose|at: int|
            0 <= at < all.len() && (#[trigger] all[at]).0 == area.y + k && all[at].1 <= area.x + j
                < all[at].2;
        lemma_editor_row_of_cell(s, start, end, area, n, at);
    }
}

/// Every cell that is drawn as selected is in the area.
pub proof fn law_drawn_selection_stays_inside(
    s: EditorState,
    start: (usize, usize),
    end: (usize, usize),
    area: Rect,
    at: int,
)
    requires
        0 <= at < editor_cells(s, start, end, area, area.height as int).len(),
    ensures
        ({
            let cell = editor_cells(s, start, end, area, area.height as int)[at];
            &&& area.y <= cell.0 < area.y + area.height
            &&& area.x <= cell.1 < cell.2 <= area.x + area.width
        }),
{
    let n = area.height as int;
    lemma_editor_row_of_cell(s, start, end, area, n, at);
}

/// Where the cell of a row stands among all.
proof fn lemma_editor_cell_of_row(
    s: EditorState,
    start: (usize, usize),
    end: (usize, usize),
    area: Rect,
    n: int,
    k: int,
) -> (at: int)
    requires
        0 <= k < n,
        editor_row_cells(s, start, end, area, k).len() == 1,
    ensures
        0 <= at < editor_cells(s, start, end, area, n).len(),
        editor_cells(s, start, end, area, n)[at] == editor_row_cells(s, start, end, area, k)[0],
    decreases n,
{
    let before = editor_cells(s, start, end, area, n - 1);
    if k == n - 1 {
        before.len() as int
    } else {
        let at = lemma_editor_cell_of_row(s, start, end, area, n - 1, k);
        assert(editor_cells(s, start, end, area, n)[at] == before[at]);
        at
    }
}

/// Every cell is that of the row it is on.
proof fn lemma_editor_row_of_cell(
    s: EditorState,
    start: (usize, usize),
    end: (usize, usize),
    area: Rect,
    n: int,
    at: int,
)
    requires
        0 <= at < editor_cells(s, start, end, area, n).len(),
    ensures
        ({
            let cell = editor_cells(s, start, end, area, n)[at];
            let own = editor_row_cells(s, start, end, area, cell.0 - area.y);
            own.len() == 1 && own[0] == cell && area.y <= cell.0 < area.y + n
        }),
    decreases n,
{
    let before = editor_cells(s, start, end, area, n - 1);
    let last = editor_row_cells(s, start, end, area, n - 1);
    if at < before.len() {
        lemma_editor_row_of_cell(s, start, end, area, n - 1, at);
        assert(editor_cells(s, start, end, area, n)[at] == before[at]);
    } else {
        assert(editor_cells(s, start, end, area, n)[at] == last[at - before.len()]);
    }
}

/// The keys of a single-line field do what they say: a character is typed,
/// Backspace deletes, the arrows step, or with the control key go to an end of the
/// line as Home and End do, and any other key does nothing.
pub proof fn law_keys_do_what_they_say(s: EditorState, key: KeyEvent)
    requires
        s.has_line(),
        representable(s),
    ensures
        ({
            let next = key_applied(s, key);
            let home = key.code is Home || (key.code is Left && key.control);
            let end = key.code is End || (key.code is Right && key.control);
            &&& key.code matches KeyCode::Char(ch) ==> next == s.inserted(ch)
            &&& key.code is Backspace ==> next == s.rubbed_out()
            &&& key.code is Left && !key.control ==> next == s.stepped_left()
            &&& key.code is Right && !key.control ==> next == s.stepped_right()
            &&& home ==> next.col == 0
            &&& end ==> next.col == s.line().len()
            &&& home || end ==> next.row == s.row && next.lines == s.lines && next.sel_anchor
                == s.sel_anchor
            &&& !(key.code is Char) && !(key.code is Backspace) && !(key.code is Left) && !(
            key.code is Right) && !home && !end ==> next == s
        }),
{
    assert(s.line().len() <= usize::MAX);
}

/// A cursor past the end of its line counts as at that end: what is typed goes
/// there and the line is broken there. Deleting then only takes the cursor one
/// column back.
pub proof fn law_cursor_past_the_end_counts_as_at_the_end(s: EditorState, ch: char)
    requires
        s.has_line(),
        representable(s),
        s.line().len() < s.col < usize::MAX,
    ensures
        ({
            let at_end = s.with_cursor(s.row as int, s.line().len() as int);
            &&& s.inserted(ch).lines == at_end.inserted(ch).lines
            &&& s.inserted(ch).row == s.row && s.inserted(ch).col == s.col + 1
            &&& s.broken().lines == at_end.broken().lines
            &&& s.multiline ==> s.broken().row == at_end.broken().row && s.broken().col == 0
            &&& s.rubbed_out() == s.with_cursor(s.row as int, s.col - 1)
            &&& s.stepped_left() == s.with_cursor(s.row as int, s.col - 1)
            &&& s.row + 1 < s.lines.len() ==> s.stepped_right() == at_end.stepped_right()
            &&& s.row + 1 == s.lines.len() ==> s.stepped_right() == s
        }),
{
    assert(s.line().len() <= usize::MAX);
}

/// The end of a selection that lies past the end of its line counts as that end.
pub proof fn law_selection_past_a_line_end_counts_as_to_the_end(
    s: EditorState,
    start: (usize, usize),
    end: (usize, usize),
)
    requires
        representable(s),
        start.0 <= end.0 < s.lines.len(),
    ensures
        ({
            let within = |pos: (usize, usize)|
                (pos.0, least(pos.1 as int, s.lines[pos.0 as int].len() as int) as usize);
            s.selected(start, end) == s.selected(within(start), within(end))
        }),
{
    let within = |pos: (usize, usize)|
        (pos.0, least(pos.1 as int, s.lines[pos.0 as int].len() as int) as usize);
    let a = within(start);
    let b = within(end);
    assert(s.lines[start.0 as int].len() <= usize::MAX);
    assert(s.lines[end.0 as int].len() <= usize::MAX);
    let pieces = Seq::new(
        (end.0 + 1 - start.0) as nat,
        |k: int| s.selected_piece(start, end, start.0 + k),
    );
    let others = Seq::new((b.0 + 1 - a.0) as nat, |k: int| s.selected_piece(a, b, a.0 + k));
    assert forall|k: int| 0 <= k < pieces.len() implies pieces[k] == #[trigger] others[k] by {
        assert(pieces[k] == s.selected_piece(start, end, start.0 + k));
    }
    assert(pieces =~= others);
}

/// A coloured text has the given colours and nothing else about it is changed.
pub proof fn law_colours_change_nothing_else(fg: Option<Color>, bg: Option<Color>)
    ensures
        colored(fg, bg).fg == fg,
        colored(fg, bg).bg == bg,
        colored(fg, bg).underline_color is None,
        colored(fg, bg).add_modifier == 0,
        colored(fg, bg).sub_modifier == 0,
{
}

/// A selection that is extended stays where it was begun: at the cursor, the first
/// time, whatever moves follow. Without extending there is none. The text and the
/// cursor stay.
pub proof fn law_selecting_begins_at_the_cursor(s: EditorState, row: usize, col: usize)
    ensures
        s.sel_anchor is None ==> s.selecting(true).sel_anchor == Some((s.row, s.col)),
        s.selecting(true).with_cursor(row as int, col as int).selecting(true).sel_anchor
            == s.selecting(true).sel_anchor,
        s.sel_anchor is Some ==> s.selecting(true) == s,
        s.selecting(false).selection() is None,
        s.selecting(false).sel_anchor is None,
        forall|extend: bool| #![trigger s.selecting(extend)]
            s.selecting(extend).lines == s.lines && s.selecting(extend).row == s.row
                && s.selecting(extend).col == s.col && s.selecting(extend).multiline
                == s.multiline,
        s.sel_anchor is None && (row, col) != (s.row, s.col) ==> s.selecting(true).with_cursor(
            row as int,
            col as int,
        ).selection() is Some,
{
}

} // verus!
