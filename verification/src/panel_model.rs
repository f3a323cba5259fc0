//! What a panel's text looks like on screen, as a mathematical model.
//!
//! A [`PanelModel`] holds the lines of a text, the style of every character and
//! how the panel lays them out. Everything else follows from it: how many rows
//! a line takes, what each row shows, and which row and column a position in the
//! text falls on. [`crate::wrapcache::PanelWrap`] is the data structure that
//! answers these questions at run time.

use vstd::prelude::*;

use crate::style::{plain_style, raw_spans, row_text, SpanModel, Style};
use crate::text::{
    ended_len, join, least, lemma_ended_len_less, lemma_lines_hold_no_newline,
    lemma_str_lines_len, newline, str_lines, strip_cr,
};
use crate::wrap::{
    glyph, glyph_chars, glyph_styles, glyphs_of, group, lemma_group, lemma_last_row,
    lemma_raw_glyphs, lemma_run_bounds, row_count, row_glyphs, same_run, wrapped, Glyph,
};

verus! {

// ---------------------------------------------------------------------------
// Types
// ---------------------------------------------------------------------------

/// A mark drawn in a reserved rightmost column on every row that its line
/// continues past, so that a soft wrap looks different from a line's end.
///
/// Lines then wrap one column earlier. Since every position is mapped by that
/// smaller width, the reserved column never stands for a character: it is
/// neither highlighted nor copied.
#[derive(Clone, Copy, Debug, PartialEq, Eq, Structural)]
pub struct WrapMarker {
    /// The character drawn in the reserved column, one cell wide.
    pub glyph: char,
    /// The style it is drawn with.
    pub style: Style,
}

/// How a panel lays out lines that are wider than itself.
#[derive(Clone, Copy, Debug, PartialEq, Eq, Structural)]
pub enum WrapMode {
    /// Break each line every so many columns, onto as many rows as it takes.
    Wrap,
    /// Show each line on exactly one row and cut off what does not fit.
    Clip,
}

impl Default for WrapMode {
    /// Lines are wrapped.
    fn default() -> (r: Self)
        ensures
            r == WrapMode::Wrap,
    {
        WrapMode::Wrap
    }
}

/// What a panel's text was built from.
#[derive(Clone, Copy, Debug, PartialEq, Eq, Structural)]
pub enum TextKind {
    /// A text without styles.
    Plain,
    /// Lines that came with their styles.
    Styled,
    /// A text with terminal escape sequences.
    Ansi,
}

/// A position in a panel's text: a line and a character offset in it, both
/// counted from zero. The offset may equal the line's length, which means just
/// past its last character. Never a screen coordinate, so it stays valid when
/// the text is wrapped anew.
#[derive(Clone, Copy, Debug, PartialEq, Eq, PartialOrd, Ord, Hash, Structural)]
pub struct TextPos {
    /// The line.
    pub line: usize,
    /// The character offset in the line.
    pub col: usize,
}

impl TextPos {
    /// The position of offset `col` in line `line`.
    pub fn new(line: usize, col: usize) -> (r: Self)
        ensures
            r.line == line,
            r.col == col,
    {
        TextPos { line, col }
    }

    /// Whether this position comes before `other` in the text.
    pub open spec fn before(self, other: TextPos) -> bool {
        self.line < other.line || (self.line == other.line && self.col < other.col)
    }

    /// Whether this position comes before `other` in the text.
    pub fn precedes(self, other: TextPos) -> (r: bool)
        ensures
            r == self.before(other),
    {
        self.line < other.line || (self.line == other.line && self.col < other.col)
    }
}

// ---------------------------------------------------------------------------
// Model
// ---------------------------------------------------------------------------

/// The width that lines are broken at in a panel of `width` columns: one less
/// where a marker takes up a column, which it does only when lines wrap and a
/// column can be spared.
pub open spec fn effective_width(width: int, mode: WrapMode, marked: bool) -> int {
    if marked && mode == WrapMode::Wrap && width >= 2 {
        width - 1
    } else {
        width
    }
}

/// A text and how a panel lays it out.
pub struct PanelModel {
    /// The text that the panel was given.
    pub raw: Seq<char>,
    /// The text that it shows.
    pub source: Seq<char>,
    /// The lines of `source`.
    pub lines: Seq<Seq<char>>,
    /// The style of each character of each line.
    pub styles: Seq<Seq<Style>>,
    /// What kind of text it is.
    pub kind: TextKind,
    /// Columns of the panel.
    pub width: usize,
    /// How wide lines are laid out.
    pub mode: WrapMode,
    /// What marks a row that its line continues past.
    pub marker: Option<WrapMarker>,
}

impl PanelModel {
    /// The width that lines are broken at.
    pub open spec fn wrap_width(self) -> int {
        effective_width(self.width as int, self.mode, self.marker is Some)
    }

    /// The number of rows that line `i` takes.
    pub open spec fn line_rows(self, i: int) -> int {
        if self.mode == WrapMode::Clip {
            1
        } else {
            row_count(self.lines[i].len() as int, self.wrap_width())
        }
    }

    /// The number of rows above line `i`.
    pub open spec fn rows_before(self, i: int) -> int
        decreases i,
    {
        if i <= 0 {
            0
        } else {
            self.rows_before(i - 1) + self.line_rows(i - 1)
        }
    }

    /// The number of rows of the whole text.
    pub open spec fn total_rows(self) -> int {
        self.rows_before(self.lines.len() as int)
    }

    /// What holds of every panel: it has a line, every character has a style,
    /// and its rows can be counted in 32 bits.
    pub open spec fn wf(self) -> bool {
        &&& 1 <= self.lines.len() <= usize::MAX
        &&& self.styles.len() == self.lines.len()
        &&& forall|i: int|
            0 <= i < self.lines.len() ==> (#[trigger] self.lines[i]).len() <= usize::MAX
        &&& forall|i: int|
            0 <= i < self.lines.len() ==> (#[trigger] self.styles[i]).len()
                == self.lines[i].len()
        &&& self.total_rows() <= u32::MAX
    }

    /// The last line among the first `upto + 1` that starts at or above `row`.
    pub open spec fn last_start(self, row: int, upto: int) -> int
        decreases upto,
    {
        if upto <= 0 {
            0
        } else if self.rows_before(upto) <= row {
            upto
        } else {
            self.last_start(row, upto - 1)
        }
    }

    /// The line that `row` belongs to; the last one for a row below the text.
    pub open spec fn line_at(self, row: int) -> int {
        self.last_start(row, self.lines.len() - 1)
    }

    /// The first character that row `r` of line `i` shows.
    pub open spec fn row_from(self, i: int, r: int) -> int {
        if self.mode == WrapMode::Clip || self.wrap_width() == 0 {
            0
        } else {
            least(r * self.wrap_width(), self.lines[i].len() as int)
        }
    }

    /// The character behind the last one that row `r` of line `i` shows.
    pub open spec fn row_to(self, i: int, r: int) -> int {
        let len = self.lines[i].len() as int;
        if self.mode == WrapMode::Clip {
            least(self.width as int, len)
        } else if self.wrap_width() == 0 {
            len
        } else {
            least((r + 1) * self.wrap_width(), len)
        }
    }

    /// The characters of line `i` with their styles.
    pub open spec fn line_glyphs(self, i: int) -> Seq<Glyph> {
        Seq::new(self.lines[i].len(), |c: int| self.glyph_at(i, c))
    }

    /// Character `c` of line `i` with its style.
    pub open spec fn glyph_at(self, i: int, c: int) -> Glyph {
        glyph(self.lines[i][c], self.styles[i][c], 0)
    }

    /// What row `r` of line `i` shows of its line.
    pub open spec fn row_runs(self, i: int, r: int) -> Seq<SpanModel> {
        group(self.line_glyphs(i).subrange(self.row_from(i, r), self.row_to(i, r)))
    }

    /// Whether row `r` of line `i` ends in the marker: a column is reserved for
    /// it and the line goes on below.
    pub open spec fn continued(self, i: int, r: int) -> bool {
        self.marker is Some && self.wrap_width() < self.width && r + 1 < self.line_rows(i)
    }

    /// What row `r` of line `i` shows, its marker included.
    pub open spec fn shown_row(self, i: int, r: int) -> Seq<SpanModel> {
        if self.continued(i, r) {
            self.row_runs(i, r).push(
                SpanModel { content: seq![self.marker->0.glyph], style: self.marker->0.style },
            )
        } else {
            self.row_runs(i, r)
        }
    }

    /// What the `row`-th row of the panel shows.
    pub open spec fn panel_row(self, row: int) -> Seq<SpanModel> {
        let i = self.line_at(row);
        self.shown_row(i, row - self.rows_before(i))
    }

    /// The number of rows to be seen in a window of `height` rows from row
    /// `scroll` on.
    pub open spec fn window_len(self, scroll: int, height: int) -> int {
        if scroll >= self.total_rows() {
            0
        } else {
            least(height, self.total_rows() - scroll)
        }
    }

    /// What a window of `height` rows from row `scroll` on shows.
    pub open spec fn window(self, scroll: int, height: int) -> Seq<Seq<SpanModel>> {
        Seq::new(
            self.window_len(scroll, height) as nat,
            |k: int| self.panel_row(scroll + k),
        )
    }

    /// The line that a position is taken to be in: the last one at most.
    pub open spec fn clamped_line(self, pos: TextPos) -> int {
        least(pos.line as int, self.lines.len() - 1)
    }

    /// The offset that a position is taken to have: the line's length at most.
    pub open spec fn clamped_col(self, pos: TextPos) -> int {
        least(pos.col as int, self.lines[self.clamped_line(pos)].len() as int)
    }

    /// Whether a position names a line and an offset that the text has.
    pub open spec fn has_pos(self, pos: TextPos) -> bool {
        pos.line < self.lines.len() && pos.col <= self.lines[pos.line as int].len()
    }

    /// The row of its line that a position falls on. A position at the end of a
    /// line that fills its last row stays on that row.
    pub open spec fn row_in_line(self, pos: TextPos) -> int {
        if self.mode == WrapMode::Clip || self.wrap_width() == 0 {
            0
        } else {
            least(
                self.clamped_col(pos) / self.wrap_width(),
                self.line_rows(self.clamped_line(pos)) - 1,
            )
        }
    }

    /// The row and the column of it that a position falls on.
    pub open spec fn place_of(self, pos: TextPos) -> (int, int) {
        let r = self.row_in_line(pos);
        (
            self.rows_before(self.clamped_line(pos)) + r,
            self.clamped_col(pos) - r * self.wrap_width(),
        )
    }

    /// The position that column `col` of row `row` stands for: the line's end
    /// for a column past it.
    pub open spec fn pos_at(self, row: int, col: int) -> TextPos {
        let i = self.line_at(row);
        let r = row - self.rows_before(i);
        let len = self.lines[i].len() as int;
        TextPos {
            line: i as usize,
            col: least(r * self.wrap_width() + col, len) as usize,
        }
    }
}

/// The lines that a panel shows of a text: those of the text, or a single empty
/// one for an empty text.
pub open spec fn panel_lines(source: Seq<char>) -> Seq<Seq<char>> {
    if str_lines(source).len() == 0 {
        seq![Seq::<char>::empty()]
    } else {
        str_lines(source)
    }
}

/// The panel of a text without styles.
pub open spec fn plain_panel(
    source: Seq<char>,
    width: usize,
    mode: WrapMode,
    marker: Option<WrapMarker>,
) -> PanelModel {
    let lines = panel_lines(source);
    PanelModel {
        raw: source,
        source,
        lines,
        styles: Seq::new(lines.len(), |i: int| repeated(plain_style(), lines[i].len())),
        kind: TextKind::Plain,
        width,
        mode,
        marker,
    }
}

/// The style of every character of a row of spans.
pub open spec fn char_styles(row: Seq<SpanModel>) -> Seq<Style>
    decreases row.len(),
{
    if row.len() == 0 {
        Seq::<Style>::empty()
    } else {
        char_styles(row.drop_last()) + repeated(row.last().style, row.last().content.len())
    }
}

/// `len` times `style`.
pub open spec fn repeated(style: Style, len: nat) -> Seq<Style> {
    Seq::new(len, |c: int| style)
}

/// `rows`, or one empty row in place of none.
pub open spec fn at_least_one(rows: Seq<Seq<SpanModel>>) -> Seq<Seq<SpanModel>> {
    if rows.len() == 0 {
        seq![Seq::<SpanModel>::empty()]
    } else {
        rows
    }
}

/// The panel of lines whose characters have styles of their own.
pub open spec fn styled_panel(
    kind: TextKind,
    raw: Seq<char>,
    lines: Seq<Seq<char>>,
    styles: Seq<Seq<Style>>,
    width: usize,
    mode: WrapMode,
    marker: Option<WrapMarker>,
) -> PanelModel {
    PanelModel {
        raw,
        source: join(lines, newline()),
        lines,
        styles,
        kind,
        width,
        mode,
        marker,
    }
}

/// The panel of styled rows.
pub open spec fn styled_lines_panel(
    rows: Seq<Seq<SpanModel>>,
    width: usize,
    mode: WrapMode,
    marker: Option<WrapMarker>,
) -> PanelModel {
    let lines = row_texts(at_least_one(rows));
    styled_panel(
        TextKind::Styled,
        join(lines, newline()),
        lines,
        row_styles(at_least_one(rows)),
        width,
        mode,
        marker,
    )
}

/// The panel of styled lines that were read from the text `raw`. A
/// carriage return at the end of a line belongs to the line's ending, not to the
/// line.
pub open spec fn read_panel(
    kind: TextKind,
    raw: Seq<char>,
    rows: Seq<Seq<SpanModel>>,
    width: usize,
    mode: WrapMode,
    marker: Option<WrapMarker>,
) -> PanelModel {
    styled_panel(
        kind,
        raw,
        stripped_texts(at_least_one(rows)),
        stripped_styles(at_least_one(rows)),
        width,
        mode,
        marker,
    )
}

/// The texts of styled rows without the carriage returns at their ends.
pub open spec fn stripped_texts(rows: Seq<Seq<SpanModel>>) -> Seq<Seq<char>> {
    Seq::new(rows.len(), |i: int| strip_cr(row_text(rows[i])))
}

/// The styles of the characters of styled rows without the carriage returns at
/// their ends.
pub open spec fn stripped_styles(rows: Seq<Seq<SpanModel>>) -> Seq<Seq<Style>> {
    Seq::new(
        rows.len(),
        |i: int| char_styles(rows[i]).take(strip_cr(row_text(rows[i])).len() as int),
    )
}

/// The texts of styled rows.
pub open spec fn row_texts(rows: Seq<Seq<SpanModel>>) -> Seq<Seq<char>> {
    Seq::new(rows.len(), |i: int| row_text(rows[i]))
}

/// The styles of the characters of styled rows.
pub open spec fn row_styles(rows: Seq<Seq<SpanModel>>) -> Seq<Seq<Style>> {
    Seq::new(rows.len(), |i: int| char_styles(rows[i]))
}

// ---------------------------------------------------------------------------
// Rows and lines
// ---------------------------------------------------------------------------

/// Every line takes at least one row, and no more than it has characters beyond
/// that.
pub proof fn lemma_line_rows(m: PanelModel, i: int)
    ensures
        1 <= m.line_rows(i),
        m.line_rows(i) <= m.lines[i].len() + 1,
        m.lines[i].len() > 0 ==> m.line_rows(i) <= m.lines[i].len(),
{
    let len = m.lines[i].len() as int;
    let w = m.wrap_width();
    if m.mode == WrapMode::Wrap && w > 0 && len > 0 {
        vstd::arithmetic::div_mod::lemma_fundamental_div_mod(len, w);
        let q = len / w;
        let rest = len % w;
        assert(0 <= rest < w) by {
            vstd::arithmetic::div_mod::lemma_mod_bound(len, w);
        }
        assert(q >= 0) by (nonlinear_arith)
            requires
                len == w * q + rest,
                len > 0,
                0 <= rest < w,
        ;
        assert(q <= w * q) by (nonlinear_arith)
            requires
                q >= 0,
                w >= 1,
        ;
        if rest == 0 {
            assert(q >= 1) by (nonlinear_arith)
                requires
                    len == w * q,
                    len > 0,
                    w > 0,
            ;
        }
    }
}

/// Lines further down start further down.
pub proof fn lemma_rows_before(m: PanelModel, i: int, j: int)
    requires
        0 <= i < j,
    ensures
        m.rows_before(i) + m.line_rows(i) <= m.rows_before(j),
        m.rows_before(i) < m.rows_before(j),
        0 <= i <= m.rows_before(i),
    decreases j,
{
    lemma_line_rows(m, i);
    lemma_rows_grow(m, i);
    if i + 1 < j {
        lemma_rows_before(m, i, j - 1);
        lemma_line_rows(m, j - 1);
    }
}

/// There are at least as many rows above a line as there are lines.
proof fn lemma_rows_grow(m: PanelModel, i: int)
    requires
        0 <= i,
    ensures
        m.rows_before(i) >= i,
    decreases i,
{
    if i > 0 {
        lemma_rows_grow(m, i - 1);
        lemma_line_rows(m, i - 1);
    }
}

/// A line's rows belong to it.
pub proof fn lemma_line_at(m: PanelModel, row: int, i: int)
    requires
        0 <= i < m.lines.len(),
        m.rows_before(i) <= row,
        i + 1 < m.lines.len() ==> row < m.rows_before(i + 1),
    ensures
        m.line_at(row) == i,
{
    lemma_last_start(m, row, i, m.lines.len() - 1);
}

proof fn lemma_last_start(m: PanelModel, row: int, i: int, upto: int)
    requires
        0 <= i <= upto,
        m.rows_before(i) <= row,
        i < upto ==> row < m.rows_before(i + 1),
    ensures
        m.last_start(row, upto) == i,
    decreases upto,
{
    if i < upto {
        if i + 1 < upto {
            lemma_rows_before(m, i + 1, upto);
        }
        lemma_last_start(m, row, i, upto - 1);
    }
}

/// Every row belongs to the line whose rows it is among.
pub proof fn lemma_row_line(m: PanelModel, row: int)
    requires
        m.lines.len() > 0,
        0 <= row,
    ensures
        0 <= m.line_at(row) < m.lines.len(),
        m.rows_before(m.line_at(row)) <= row,
        row < m.total_rows() ==> row < m.rows_before(m.line_at(row)) + m.line_rows(
            m.line_at(row),
        ),
        row >= m.total_rows() ==> m.line_at(row) == m.lines.len() - 1,
{
    let n = m.lines.len() as int;
    lemma_row_line_upto(m, row, n - 1);
    if row >= m.total_rows() {
        lemma_rows_before(m, n - 1, n);
        lemma_line_at(m, row, n - 1);
    }
}

proof fn lemma_row_line_upto(m: PanelModel, row: int, upto: int)
    requires
        0 <= upto,
        0 <= row,
    ensures
        0 <= m.last_start(row, upto) <= upto,
        m.rows_before(m.last_start(row, upto)) <= row,
        row < m.rows_before(upto + 1) ==> row < m.rows_before(m.last_start(row, upto))
            + m.line_rows(m.last_start(row, upto)),
    decreases upto,
{
    if upto > 0 && m.rows_before(upto) > row {
        lemma_row_line_upto(m, row, upto - 1);
    }
}

// ---------------------------------------------------------------------------
// Laws
// ---------------------------------------------------------------------------

/// The rows above a line are no more than the characters of the lines there and
/// one for the end of each.
proof fn lemma_rows_bounded(m: PanelModel, i: int)
    requires
        0 <= i <= m.lines.len(),
    ensures
        m.rows_before(i) <= ended_len(m.lines.take(i)),
    decreases i,
{
    if i > 0 {
        lemma_rows_bounded(m, i - 1);
        lemma_line_rows(m, i - 1);
        assert(m.lines.take(i).drop_last() =~= m.lines.take(i - 1));
    }
}

/// A panel has no more rows than its lines have characters, one for the end of
/// each line included.
pub proof fn law_rows_bounded(m: PanelModel)
    ensures
        m.total_rows() <= ended_len(m.lines),
{
    lemma_rows_bounded(m, m.lines.len() as int);
    assert(m.lines.take(m.lines.len() as int) =~= m.lines);
}

/// A text without styles has at most one row more than it has characters,
/// however narrow the panel is.
pub proof fn law_plain_rows_bounded(
    source: Seq<char>,
    width: usize,
    mode: WrapMode,
    marker: Option<WrapMarker>,
)
    ensures
        plain_panel(source, width, mode, marker).total_rows() <= source.len() + 1,
{
    let m = plain_panel(source, width, mode, marker);
    law_rows_bounded(m);
    lemma_str_lines_len(source);
    if str_lines(source).len() == 0 {
        assert(ended_len(m.lines.drop_last()) == 0);
    }
}

/// The same holds of lines read from a text with escape sequences, as long as
/// they hold no more than the text does.
pub proof fn law_read_rows_bounded(
    kind: TextKind,
    raw: Seq<char>,
    rows: Seq<Seq<SpanModel>>,
    width: usize,
    mode: WrapMode,
    marker: Option<WrapMarker>,
)
    requires
        ended_len(row_texts(rows)) <= raw.len() + 1,
    ensures
        read_panel(kind, raw, rows, width, mode, marker).total_rows() <= raw.len() + 1,
{
    let m = read_panel(kind, raw, rows, width, mode, marker);
    law_rows_bounded(m);
    if rows.len() == 0 {
        assert(ended_len(m.lines.drop_last()) == 0);
    } else {
        assert forall|i: int| 0 <= i < m.lines.len() implies (#[trigger] m.lines[i]).len()
            <= row_texts(rows)[i].len() by {
            assert(m.lines[i] == strip_cr(row_text(rows[i])));
        }
        lemma_ended_len_less(m.lines, row_texts(rows));
    }
}

/// A position that the text has is found again from the row and the column it
/// falls on, whatever the panel's width, mode and marker.
pub proof fn law_position_found_again(m: PanelModel, pos: TextPos)
    requires
        m.wf(),
        m.has_pos(pos),
    ensures
        m.pos_at(m.place_of(pos).0, m.place_of(pos).1) == pos,
        0 <= m.place_of(pos).0 < m.total_rows(),
        0 <= m.place_of(pos).1,
{
    let i = pos.line as int;
    let r = m.row_in_line(pos);
    let w = m.wrap_width();
    lemma_row_in_line(m, pos);
    lemma_rows_before(m, i, m.lines.len() as int);
    lemma_line_at(m, m.rows_before(i) + r, i);
}

/// The row that a position falls on is one of its line's, and its column is not
/// negative.
pub proof fn lemma_row_in_line(m: PanelModel, pos: TextPos)
    requires
        m.lines.len() > 0,
    ensures
        0 <= m.row_in_line(pos) < m.line_rows(m.clamped_line(pos)),
        m.row_in_line(pos) * m.wrap_width() <= m.clamped_col(pos),
        m.mode == WrapMode::Wrap && m.wrap_width() > 0 ==> m.clamped_col(pos) - m.row_in_line(pos)
            * m.wrap_width() <= m.wrap_width(),
{
    let i = m.clamped_line(pos);
    let r = m.row_in_line(pos);
    let w = m.wrap_width();
    let col = m.clamped_col(pos);
    let len = m.lines[i].len() as int;
    lemma_line_rows(m, i);
    if m.mode == WrapMode::Wrap && w > 0 {
        vstd::arithmetic::div_mod::lemma_fundamental_div_mod(col, w);
        vstd::arithmetic::div_mod::lemma_mod_bound(col, w);
        vstd::arithmetic::div_mod::lemma_div_pos_is_pos(col, w);
        let q = col / w;
        assert(w * q == q * w) by (nonlinear_arith);
        assert(r * w <= q * w) by (nonlinear_arith)
            requires
                r <= q,
                w > 0,
        ;
        if r < q {
            // The line's last row: it holds the rest of the line.
            lemma_last_row(len, w);
            assert((r + 1) * w == r * w + w) by (nonlinear_arith);
        }
    } else {
        assert(r * w == 0) by (nonlinear_arith)
            requires
                r == 0,
        ;
    }
}

/// A cell that shows a character, or the one behind a line's last, is found again
/// from the position it stands for.
pub proof fn law_cell_found_again(m: PanelModel, row: int, col: int)
    requires
        m.wf(),
        0 <= row < m.total_rows(),
        0 <= col,
        ({
            let i = m.line_at(row);
            let r = row - m.rows_before(i);
            let len = m.lines[i].len();
            if m.mode == WrapMode::Wrap && m.wrap_width() > 0 {
                &&& r * m.wrap_width() + col <= len
                &&& col < m.wrap_width() || r + 1 == m.line_rows(i)
            } else {
                col <= len
            }
        }),
    ensures
        m.place_of(m.pos_at(row, col)) == (row, col),
{
    let i = m.line_at(row);
    let r = row - m.rows_before(i);
    let w = m.wrap_width();
    let len = m.lines[i].len() as int;
    lemma_row_line(m, row);
    let pos = m.pos_at(row, col);
    if m.mode == WrapMode::Wrap && w > 0 {
        assert(r * w >= 0) by (nonlinear_arith)
            requires
                r >= 0,
                w > 0,
        ;
        assert(pos.line == i && pos.col == r * w + col);
        lemma_last_row(len, w);
        let n = m.line_rows(i);
        if col < w {
            assert(r * w == w * r) by (nonlinear_arith);
            vstd::arithmetic::div_mod::lemma_fundamental_div_mod_converse(r * w + col, w, r, col);
        } else {
            // The line's last row, which is full.
            assert((r + 1) * w == r * w + w) by (nonlinear_arith);
            assert(col == w);
            assert((r + 1) * w == w * (r + 1)) by (nonlinear_arith);
            vstd::arithmetic::div_mod::lemma_fundamental_div_mod_converse(
                r * w + col,
                w,
                r + 1,
                0,
            );
        }
    } else {
        assert(r == 0);
        assert(r * w == 0) by (nonlinear_arith)
            requires
                r == 0,
        ;
        assert(m.row_in_line(pos) * w == 0) by (nonlinear_arith)
            requires
                m.row_in_line(pos) == 0,
        ;
    }
}

/// Where the rows of a line start and end in it.
pub proof fn lemma_row_bounds(m: PanelModel, i: int, r: int)
    requires
        m.wf(),
        0 <= i < m.lines.len(),
        0 <= r < m.line_rows(i),
    ensures
        0 <= m.row_from(i, r) <= m.row_to(i, r) <= m.lines[i].len(),
        m.mode == WrapMode::Wrap && m.wrap_width() > 0 ==> m.row_from(i, r) == r * m.wrap_width(),
        m.mode == WrapMode::Wrap && m.wrap_width() > 0 ==> m.row_to(i, r) == least(
            r * m.wrap_width() + m.wrap_width(),
            m.lines[i].len() as int,
        ),
{
    let w = m.wrap_width();
    let len = m.lines[i].len() as int;
    if m.mode == WrapMode::Wrap && w > 0 {
        lemma_last_row(len, w);
        assert((r + 1) * w == r * w + w) by (nonlinear_arith);
        assert(0 <= r * w) by (nonlinear_arith)
            requires
                0 <= r,
                0 < w,
        ;
        if len > 0 {
            let last = m.line_rows(i) - 1;
            assert(r * w <= last * w) by (nonlinear_arith)
                requires
                    r <= last,
                    0 < w,
            ;
        } else {
            assert(r * w == 0) by (nonlinear_arith)
                requires
                    r == 0,
            ;
        }
    }
}

/// Every character of a line that is wrapped is on exactly one of its rows: the
/// first row starts with the line, each next one where the one before ends, and
/// the last ends with the line.
pub proof fn law_rows_cover_line(m: PanelModel, i: int, r: int)
    requires
        m.wf(),
        m.mode == WrapMode::Wrap,
        0 <= i < m.lines.len(),
        0 <= r < m.line_rows(i),
    ensures
        m.row_from(i, 0) == 0,
        r > 0 ==> m.row_from(i, r) == m.row_to(i, r - 1),
        m.row_to(i, m.line_rows(i) - 1) == m.lines[i].len(),
{
    let w = m.wrap_width();
    let n = m.line_rows(i);
    lemma_line_rows(m, i);
    lemma_row_bounds(m, i, 0);
    lemma_row_bounds(m, i, r);
    lemma_row_bounds(m, i, n - 1);
    if w > 0 {
        lemma_last_row(m.lines[i].len() as int, w);
        assert(0 * w == 0);
        assert((n - 1) * w + w == n * w) by (nonlinear_arith);
        if r > 0 {
            lemma_row_bounds(m, i, r - 1);
            assert((r - 1) * w + w == r * w) by (nonlinear_arith);
        }
    }
}

/// A row shows its part of the line, each character in its style.
pub proof fn law_row_shows_its_part(m: PanelModel, i: int, r: int)
    requires
        m.wf(),
        0 <= i < m.lines.len(),
        0 <= r < m.line_rows(i),
    ensures
        row_text(m.row_runs(i, r)) == m.lines[i].subrange(m.row_from(i, r), m.row_to(i, r)),
        char_styles(m.row_runs(i, r)) == m.styles[i].subrange(
            m.row_from(i, r),
            m.row_to(i, r),
        ),
{
    let from = m.row_from(i, r);
    let to = m.row_to(i, r);
    lemma_row_bounds(m, i, r);
    let glyphs = m.line_glyphs(i).subrange(from, to);
    assert(m.line_glyphs(i).len() == m.lines[i].len());
    assert(m.styles[i].len() == m.lines[i].len());
    lemma_group(glyphs);
    assert(glyph_chars(glyphs) =~= m.lines[i].subrange(from, to));
    assert(glyph_styles(glyphs) =~= m.styles[i].subrange(from, to));
}

/// A row, its marker included, is no wider than the panel; only rows that are
/// continued below have a marker, in a column of its own behind the text.
pub proof fn law_row_fits_panel(m: PanelModel, i: int, r: int)
    requires
        m.wf(),
        m.width > 0,
        0 <= i < m.lines.len(),
        0 <= r < m.line_rows(i),
    ensures
        row_text(m.shown_row(i, r)).len() <= m.width,
        row_text(m.row_runs(i, r)).len() <= m.wrap_width(),
        m.continued(i, r) ==> row_text(m.shown_row(i, r)) == row_text(m.row_runs(i, r)).push(
            m.marker->0.glyph,
        ),
        !m.continued(i, r) ==> m.shown_row(i, r) == m.row_runs(i, r),
{
    law_row_shows_its_part(m, i, r);
    lemma_row_bounds(m, i, r);
    if m.continued(i, r) {
        let marked = m.shown_row(i, r);
        assert(marked.drop_last() =~= m.row_runs(i, r));
        assert(row_text(marked) =~= row_text(m.row_runs(i, r)).push(m.marker->0.glyph));
    }
}

/// A panel of a text without styles shows what wrapping its lines gives: the
/// number of rows it counts with and the rows it draws agree.
pub proof fn law_plain_rows_are_wrapped_lines(
    source: Seq<char>,
    width: usize,
    marker: Option<WrapMarker>,
    i: int,
    r: int,
)
    requires
        ({
            let m = plain_panel(source, width, WrapMode::Wrap, marker);
            &&& 0 <= i < m.lines.len()
            &&& 0 <= r < m.line_rows(i)
            &&& m.wrap_width() > 0
        }),
    ensures
        ({
            let m = plain_panel(source, width, WrapMode::Wrap, marker);
            let rows = wrapped(raw_spans(m.lines[i]), m.wrap_width());
            &&& m.line_rows(i) == rows.len()
            &&& m.row_runs(i, r) == rows[r]
        }),
{
    let m = plain_panel(source, width, WrapMode::Wrap, marker);
    let line = m.lines[i];
    lemma_lines_hold_no_newline(source);
    assert forall|j: int| 0 <= j < line.len() implies #[trigger] line[j] != '\n' by {
        assert(str_lines(source)[i][j] != '\n');
    }
    lemma_raw_glyphs(line);
    let glyphs = glyphs_of(raw_spans(line));
    assert(m.styles[i] == repeated(plain_style(), line.len()));
    assert(m.line_glyphs(i) =~= glyphs);
    assert(m.row_runs(i, r) == group(row_glyphs(glyphs, m.wrap_width(), r)));
}

/// When lines are clipped, each takes one row: a line's number is its row, and
/// there are as many rows as lines.
pub proof fn law_clipped_line_is_its_row(m: PanelModel, i: int)
    requires
        m.mode == WrapMode::Clip,
        0 <= i,
    ensures
        m.rows_before(i) == i,
    decreases i,
{
    if i > 0 {
        law_clipped_line_is_its_row(m, i - 1);
    }
}

/// No position falls on the column that is reserved for a marker, on any row
/// that has one: such a row's positions all lie left of the width that lines are
/// broken at.
pub proof fn law_marker_column_holds_no_position(m: PanelModel, pos: TextPos)
    requires
        m.wf(),
        m.mode == WrapMode::Wrap,
        m.wrap_width() > 0,
        m.continued(m.clamped_line(pos), m.row_in_line(pos)),
    ensures
        0 <= m.place_of(pos).1 < m.wrap_width(),
{
    let i = m.clamped_line(pos);
    let w = m.wrap_width();
    let col = m.clamped_col(pos);
    lemma_row_in_line(m, pos);
    vstd::arithmetic::div_mod::lemma_fundamental_div_mod(col, w);
    vstd::arithmetic::div_mod::lemma_mod_bound(col, w);
    let q = col / w;
    assert(w * q == q * w) by (nonlinear_arith);
}

/// A window shows the rows of the lines in their order: row `r` of line `i` is as
/// far below the window's top as it is below row `scroll` of the text, if it is in
/// sight, and nothing is shown below the text.
pub proof fn law_window_shows_rows_in_order(
    m: PanelModel,
    scroll: int,
    height: int,
    i: int,
    r: int,
)
    requires
        m.wf(),
        0 <= scroll,
        0 <= height,
        0 <= i < m.lines.len(),
        0 <= r < m.line_rows(i),
    ensures
        ({
            let window = m.window(scroll, height);
            let k = m.rows_before(i) + r - scroll;
            &&& 0 <= k < window.len() <==> 0 <= k < height
            &&& 0 <= k < height ==> window[k] == m.shown_row(i, r)
            &&& window.len() <= height
            &&& scroll + window.len() <= m.total_rows() || window.len() == 0
        }),
{
    let row = m.rows_before(i) + r;
    lemma_rows_before(m, i, m.lines.len() as int);
    if i + 1 < m.lines.len() {
        lemma_rows_before(m, i, i + 1);
    }
    lemma_line_at(m, row, i);
}

/// The first line begins with the first row, and every next one with the row behind
/// the last of the line before.
pub proof fn law_lines_follow_each_other(m: PanelModel, i: int)
    requires
        0 <= i < m.lines.len(),
    ensures
        m.rows_before(0) == 0,
        m.rows_before(i + 1) == m.rows_before(i) + m.line_rows(i),
        m.total_rows() == m.rows_before(m.lines.len() as int),
        m.line_rows(i) >= 1,
{
    lemma_line_rows(m, i);
}

/// A line that wraps fills every row but its last, which is not empty unless the
/// line is. A line that is clipped, or has no width to wrap at, has one row: the
/// part of it that fits, or all of it.
pub proof fn law_rows_are_filled(m: PanelModel, i: int, r: int)
    requires
        m.wf(),
        0 <= i < m.lines.len(),
        0 <= r < m.line_rows(i),
    ensures
        ({
            let len = m.lines[i].len();
            let w = m.wrap_width();
            &&& m.mode == WrapMode::Wrap && w > 0 ==> {
                &&& r + 1 < m.line_rows(i) ==> m.row_to(i, r) - m.row_from(i, r) == w
                &&& len > 0 ==> 0 < m.row_to(i, r) - m.row_from(i, r) <= w
                &&& len == 0 ==> m.line_rows(i) == 1
            }
            &&& m.mode == WrapMode::Wrap && w == 0 ==> m.line_rows(i) == 1 && m.row_from(i, r) == 0
                && m.row_to(i, r) == len
            &&& m.mode == WrapMode::Clip ==> {
                &&& m.line_rows(i) == 1
                &&& m.row_from(i, r) == 0
                &&& len <= m.width ==> m.row_to(i, r) == len
                &&& len > m.width ==> m.row_to(i, r) == m.width
            }
        }),
{
    let len = m.lines[i].len() as int;
    let w = m.wrap_width();
    lemma_row_bounds(m, i, r);
    if m.mode == WrapMode::Wrap && w > 0 {
        let n = m.line_rows(i);
        lemma_last_row(len, w);
        if r + 1 < n {
            assert((r + 1) * w <= (n - 1) * w) by (nonlinear_arith)
                requires
                    r + 1 <= n - 1,
                    w > 0,
            ;
            assert((r + 1) * w == r * w + w) by (nonlinear_arith);
        }
        if len > 0 {
            assert(r * w <= (n - 1) * w) by (nonlinear_arith)
                requires
                    r <= n - 1,
                    w > 0,
            ;
        }
    }
}

/// A marker takes a column of its own where lines wrap and one can be spared, and
/// stands at the end of exactly those rows that their line goes on below, in its own
/// style and in the panel's last column. Otherwise no column is taken and no row has
/// one.
pub proof fn law_marker_stands_where_lines_go_on(m: PanelModel, i: int, r: int)
    requires
        m.wf(),
        0 <= i < m.lines.len(),
        0 <= r < m.line_rows(i),
    ensures
        ({
            let row = m.shown_row(i, r);
            let runs = m.row_runs(i, r);
            if m.marker is Some && m.mode == WrapMode::Wrap && m.width >= 2 {
                &&& m.wrap_width() == m.width - 1
                &&& m.row_to(i, r) == m.lines[i].len() ==> row == runs
                &&& m.row_to(i, r) < m.lines[i].len() ==> {
                    &&& row.len() == runs.len() + 1
                    &&& row.drop_last() == runs
                    &&& row.last().content == seq![m.marker->0.glyph]
                    &&& row.last().style == m.marker->0.style
                    &&& row_text(row).len() == m.width
                }
            } else {
                m.wrap_width() == m.width && row == runs
            }
        }),
{
    let len = m.lines[i].len() as int;
    let w = m.wrap_width();
    lemma_row_bounds(m, i, r);
    if m.marker is Some && m.mode == WrapMode::Wrap && m.width >= 2 {
        let n = m.line_rows(i);
        law_rows_are_filled(m, i, r);
        lemma_last_row(len, w);
        assert((r + 1) * w == r * w + w) by (nonlinear_arith);
        if r + 1 == n {
            assert(m.row_to(i, r) == len);
        } else {
            assert((r + 1) * w <= (n - 1) * w) by (nonlinear_arith)
                requires
                    r + 1 <= n - 1,
                    w > 0,
            ;
            assert(len > 0) by {
                lemma_line_rows(m, i);
            }
            assert(m.row_to(i, r) < len);
            law_row_fits_panel(m, i, r);
            law_row_shows_its_part(m, i, r);
            assert(m.shown_row(i, r).drop_last() =~= m.row_runs(i, r));
        }
    }
}

/// The runs of a row are as long as they can be: none is empty, and neighbours
/// differ in style.
pub proof fn law_runs_are_as_long_as_can_be(m: PanelModel, i: int, r: int, k: int)
    requires
        m.wf(),
        0 <= i < m.lines.len(),
        0 <= r < m.line_rows(i),
        0 <= k < m.row_runs(i, r).len(),
    ensures
        m.row_runs(i, r)[k].content.len() > 0,
        k > 0 ==> m.row_runs(i, r)[k - 1].style != m.row_runs(i, r)[k].style,
{
    let from = m.row_from(i, r);
    let to = m.row_to(i, r);
    lemma_row_bounds(m, i, r);
    let glyphs = m.line_glyphs(i).subrange(from, to);
    let runs = m.row_runs(i, r);
    lemma_run_bounds(glyphs, k);
    if k > 0 {
        lemma_run_bounds(glyphs, k - 1);
        let at = row_text(runs.take(k)).len() as int;
        let before = row_text(runs.take(k - 1)).len() as int;
        assert(runs.take(k).drop_last() =~= runs.take(k - 1));
        assert(at == before + runs[k - 1].content.len());
        assert(!same_run(glyphs[at - 1], glyphs[at]));
        assert(glyphs[at - 1].tag == glyphs[at].tag);
        lemma_same_style(glyphs, before, at);
    }
}

/// Glyphs of one run have one style.
proof fn lemma_same_style(glyphs: Seq<Glyph>, from: int, to: int)
    requires
        0 <= from < to <= glyphs.len(),
        forall|j: int| from < j < to ==> same_run(#[trigger] glyphs[j - 1], glyphs[j]),
    ensures
        glyphs[from].style == glyphs[to - 1].style,
    decreases to - from,
{
    if to - from > 1 {
        lemma_same_style(glyphs, from, to - 1);
        assert(same_run(glyphs[to - 1 - 1], glyphs[to - 1]));
    }
}

/// A character's position falls on the row of its line that shows it, and on the
/// column it is shown in: so many characters of the row come before it. In a panel
/// that clips, a character past the right edge counts as if it were shown.
pub proof fn law_position_is_where_its_character_is_shown(m: PanelModel, pos: TextPos)
    requires
        m.wf(),
        m.has_pos(pos),
        pos.col < m.lines[pos.line as int].len(),
    ensures
        ({
            let i = pos.line as int;
            let r = m.place_of(pos).0 - m.rows_before(i);
            &&& 0 <= r < m.line_rows(i)
            &&& m.row_from(i, r) + m.place_of(pos).1 == pos.col
            &&& m.row_from(i, r) <= pos.col
            &&& pos.col < m.row_to(i, r) || (m.mode == WrapMode::Clip && pos.col >= m.width)
        }),
{
    let i = pos.line as int;
    let w = m.wrap_width();
    let r = m.row_in_line(pos);
    let col = pos.col as int;
    let len = m.lines[i].len() as int;
    lemma_row_in_line(m, pos);
    lemma_row_bounds(m, i, r);
    if m.mode == WrapMode::Wrap && w > 0 {
        lemma_last_row(len, w);
        vstd::arithmetic::div_mod::lemma_fundamental_div_mod(col, w);
        vstd::arithmetic::div_mod::lemma_mod_bound(col, w);
        let q = col / w;
        assert(w * q == q * w) by (nonlinear_arith);
        let n = m.line_rows(i);
        assert(q < n) by (nonlinear_arith)
            requires
                q * w <= col,
                col < len,
                len <= n * w,
                w > 0,
        ;
    } else {
        assert(r * w == 0) by (nonlinear_arith)
            requires
                r == 0,
        ;
    }
}

/// A line's end falls on its last row, behind the last character there.
pub proof fn law_line_end_is_on_its_last_row(m: PanelModel, pos: TextPos)
    requires
        m.wf(),
        m.has_pos(pos),
        pos.col == m.lines[pos.line as int].len(),
    ensures
        ({
            let i = pos.line as int;
            let last = m.line_rows(i) - 1;
            &&& m.place_of(pos).0 == m.rows_before(i) + last
            &&& m.row_from(i, last) + m.place_of(pos).1 == pos.col
        }),
{
    let i = pos.line as int;
    let n = m.line_rows(i);
    let w = m.wrap_width();
    let len = m.lines[i].len() as int;
    lemma_line_rows(m, i);
    lemma_row_bounds(m, i, n - 1);
    if m.mode == WrapMode::Wrap && w > 0 {
        lemma_last_row(len, w);
        assert((n - 1) * w <= len) by (nonlinear_arith)
            requires
                len > 0 ==> (n - 1) * w < len,
                len == 0 ==> n == 1,
                len >= 0,
        ;
        assert(len / w >= n - 1) by (nonlinear_arith)
            requires
                w > 0,
                (n - 1) * w <= len,
        ;
    } else {
        assert((n - 1) * w == 0) by (nonlinear_arith)
            requires
                n == 1,
        ;
    }
}

/// A position past the end of its line counts as that end, and one past the last
/// line as one on the last line.
pub proof fn law_position_past_an_end_counts_as_the_end(m: PanelModel, pos: TextPos)
    requires
        m.wf(),
    ensures
        pos.line < m.lines.len() && pos.col > m.lines[pos.line as int].len() ==> m.place_of(pos)
            == m.place_of(
            TextPos { line: pos.line, col: m.lines[pos.line as int].len() as usize },
        ),
        pos.line >= m.lines.len() ==> m.place_of(pos) == m.place_of(
            TextPos { line: (m.lines.len() - 1) as usize, col: pos.col },
        ),
{
    assert(pos.line < m.lines.len() ==> m.lines[pos.line as int].len() <= usize::MAX);
}

/// A cell right of a line's end stands for that end, and one below the text for
/// the end of the text where lines wrap.
pub proof fn law_cell_past_an_end_stands_for_the_end(m: PanelModel, row: int, col: int)
    requires
        m.wf(),
        0 <= row,
        0 <= col,
    ensures
        ({
            let i = m.line_at(row);
            let r = row - m.rows_before(i);
            let len = m.lines[i].len();
            let pos = m.pos_at(row, col);
            &&& pos.line == i
            &&& row < m.total_rows() && m.row_from(i, r) + col >= len ==> pos.col == len
            &&& row >= m.total_rows() ==> i == m.lines.len() - 1
            &&& row >= m.total_rows() && m.mode == WrapMode::Wrap && m.wrap_width() > 0 ==> pos.col
                == len
        }),
{
    let i = m.line_at(row);
    let r = row - m.rows_before(i);
    let w = m.wrap_width();
    let len = m.lines[i].len() as int;
    lemma_row_line(m, row);
    assert(len <= usize::MAX);
    assert(r * w >= 0) by (nonlinear_arith)
        requires
            r >= 0,
            w >= 0,
    ;
    if row < m.total_rows() {
        lemma_row_bounds(m, i, r);
        if m.mode == WrapMode::Clip || w == 0 {
            assert(r * w == 0) by (nonlinear_arith)
                requires
                    r == 0,
            ;
        }
    } else if m.mode == WrapMode::Wrap && w > 0 {
        lemma_last_row(len, w);
        let n = m.line_rows(i);
        assert(r * w >= n * w) by (nonlinear_arith)
            requires
                r >= n,
                w > 0,
        ;
    }
}

/// Every character of a row of spans is that of its span, in the span's style.
pub proof fn law_characters_have_their_spans_style(row: Seq<SpanModel>, k: int, j: int)
    requires
        0 <= k < row.len(),
        0 <= j < row[k].content.len(),
    ensures
        ({
            let at = row_text(row.take(k)).len() + j;
            &&& at < row_text(row).len()
            &&& row_text(row)[at] == row[k].content[j]
            &&& char_styles(row)[at] == row[k].style
        }),
        char_styles(row).len() == row_text(row).len(),
    decreases row.len(),
{
    let less = row.drop_last();
    lemma_as_many_styles(less);
    lemma_as_many_styles(row);
    if k < less.len() {
        law_characters_have_their_spans_style(less, k, j);
        assert(row.take(k) =~= less.take(k));
    } else {
        assert(row.take(k) =~= less);
    }
}

proof fn lemma_as_many_styles(row: Seq<SpanModel>)
    ensures
        char_styles(row).len() == row_text(row).len(),
    decreases row.len(),
{
    if row.len() > 0 {
        lemma_as_many_styles(row.drop_last());
    }
}

/// A panel of styled rows has a line for each of them, with its text and its
/// styles, and a single empty line where there is none.
pub proof fn law_styled_rows_are_the_lines(
    rows: Seq<Seq<SpanModel>>,
    width: usize,
    mode: WrapMode,
    marker: Option<WrapMarker>,
    i: int,
)
    requires
        0 <= i < rows.len() || (i == 0 && rows.len() == 0),
    ensures
        ({
            let m = styled_lines_panel(rows, width, mode, marker);
            &&& m.width == width && m.mode == mode && m.marker == marker
            &&& m.kind == TextKind::Styled
            &&& m.source == join(m.lines, newline()) && m.raw == m.source
            &&& rows.len() > 0 ==> m.lines.len() == rows.len() && m.lines[i] == row_text(rows[i])
                && m.styles[i] == char_styles(rows[i])
            &&& rows.len() == 0 ==> m.lines.len() == 1 && m.lines[0].len() == 0
        }),
{
}

/// A panel of rows read from a text has a line for each of them, without a carriage
/// return at its end, and its characters keep their styles; where there is no row it
/// has a single empty line.
pub proof fn law_read_rows_are_the_lines(
    kind: TextKind,
    raw: Seq<char>,
    rows: Seq<Seq<SpanModel>>,
    width: usize,
    mode: WrapMode,
    marker: Option<WrapMarker>,
    i: int,
)
    requires
        0 <= i < rows.len() || (i == 0 && rows.len() == 0),
    ensures
        ({
            let m = read_panel(kind, raw, rows, width, mode, marker);
            let text = row_text(rows[i]);
            let returned = text.len() > 0 && text.last() == '\r';
            &&& m.width == width && m.mode == mode && m.marker == marker
            &&& m.kind == kind && m.raw == raw
            &&& m.source == join(m.lines, newline())
            &&& rows.len() == 0 ==> m.lines.len() == 1 && m.lines[0].len() == 0
            &&& rows.len() > 0 ==> {
                &&& m.lines.len() == rows.len()
                &&& returned ==> m.lines[i].push('\r') == text
                &&& !returned ==> m.lines[i] == text
                &&& m.styles[i] == char_styles(rows[i]).take(m.lines[i].len() as int)
            }
        }),
{
    let text = row_text(rows[i]);
    if text.len() > 0 {
        assert(text.drop_last().push(text.last()) =~= text);
    }
}

/// A panel of a text without styles has the text's lines, each character in the
/// style that changes nothing, and a single empty line where there is none.
pub proof fn law_plain_text_is_the_lines(
    source: Seq<char>,
    width: usize,
    mode: WrapMode,
    marker: Option<WrapMarker>,
    i: int,
    c: int,
)
    requires
        0 <= i < plain_panel(source, width, mode, marker).lines.len(),
    ensures
        ({
            let m = plain_panel(source, width, mode, marker);
            &&& m.width == width && m.mode == mode && m.marker == marker
            &&& m.kind == TextKind::Plain
            &&& m.source == source && m.raw == source
            &&& str_lines(source).len() > 0 ==> m.lines == str_lines(source)
            &&& str_lines(source).len() == 0 ==> m.lines.len() == 1 && m.lines[0].len() == 0
            &&& m.styles[i].len() == m.lines[i].len()
            &&& 0 <= c < m.lines[i].len() ==> m.styles[i][c] == plain_style()
        }),
{
}

/// Positions fall on rows in the order of the text: of two, the later one on no
/// row further up.
pub proof fn law_rows_are_in_text_order(m: PanelModel, a: TextPos, b: TextPos)
    requires
        m.wf(),
        m.has_pos(a),
        m.has_pos(b),
        !b.before(a),
    ensures
        m.place_of(a).0 <= m.place_of(b).0,
{
    lemma_row_in_line(m, a);
    lemma_row_in_line(m, b);
    if a.line < b.line {
        lemma_rows_before(m, a.line as int, b.line as int);
    } else if m.mode == WrapMode::Wrap && m.wrap_width() > 0 {
        vstd::arithmetic::div_mod::lemma_div_is_ordered(
            a.col as int,
            b.col as int,
            m.wrap_width(),
        );
    }
}

} // verus!
