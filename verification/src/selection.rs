//! Selecting text in a panel.
//!
//! A selection runs from one position of the text to another, both included: on
//! its first line from the start column to the line's end, over all of the lines
//! between, and on its last line up to the end column. It is never a rectangular
//! block and never leaves the panel. Since its ends are [`TextPos`]es, the same
//! characters stay selected when the text is scrolled or wrapped anew.

use vstd::prelude::*;

use crate::geometry::{cell_numbers, Rect};
use crate::panel_model::{lemma_row_bounds, lemma_row_line, PanelModel, TextPos, WrapMode};
use crate::posset::PosSet;
use crate::text::{
    blank, greatest, is_blank, join, law_join_undoes_split, least, newline, split_newlines,
    split_text, texts,
};
use crate::wrapcache::PanelWrap;

verus! {

// ---------------------------------------------------------------------------
// Model
// ---------------------------------------------------------------------------

/// The earlier of two positions.
pub open spec fn first_of(a: TextPos, b: TextPos) -> TextPos {
    if b.before(a) {
        b
    } else {
        a
    }
}

/// The later of two positions.
pub open spec fn last_of(a: TextPos, b: TextPos) -> TextPos {
    if b.before(a) {
        a
    } else {
        b
    }
}

/// The row of `area` that is nearest to the terminal row `row`, counted from its
/// top.
pub open spec fn nearest_row(area: Rect, row: u16) -> int {
    if area.height == 0 || row < area.y {
        0
    } else {
        least(row - area.y, area.height - 1)
    }
}

/// The column of `area` that is nearest to the terminal column `col`, counted
/// from its left edge.
pub open spec fn nearest_col(area: Rect, col: u16) -> int {
    if area.width == 0 || col < area.x {
        0
    } else {
        least(col - area.x, area.width - 1)
    }
}

/// The first selected character of line `i`, of a selection from `start` to
/// `end`.
pub open spec fn selected_from(m: PanelModel, start: TextPos, i: int) -> int {
    if i == start.line {
        least(start.col as int, m.lines[i].len() as int)
    } else {
        0
    }
}

/// The character behind the last selected one of line `i`.
pub open spec fn selected_to(m: PanelModel, end: TextPos, i: int) -> int {
    if i == end.line {
        least(end.col + 1, m.lines[i].len() as int)
    } else {
        m.lines[i].len() as int
    }
}

/// The characters of line number `line` from `from` up to, but not including,
/// `to`, without those at a position in `exclude`.
pub open spec fn kept(
    chars: Seq<char>,
    line: int,
    from: int,
    to: int,
    exclude: Set<TextPos>,
) -> Seq<char>
    decreases to - from,
{
    if to <= from {
        Seq::<char>::empty()
    } else {
        let before = kept(chars, line, from, to - 1, exclude);
        if exclude.contains(TextPos { line: line as usize, col: (to - 1) as usize }) {
            before
        } else {
            before.push(chars[to - 1])
        }
    }
}

/// The positions that are left out of a copy.
pub open spec fn excluded(exclude: Option<&PosSet>) -> Set<TextPos> {
    match exclude {
        Some(set) => set@,
        None => Set::<TextPos>::empty(),
    }
}

/// What is selected of line `i`.
pub open spec fn selected_piece(
    m: PanelModel,
    start: TextPos,
    end: TextPos,
    i: int,
    exclude: Set<TextPos>,
) -> Seq<char> {
    kept(m.lines[i], i, selected_from(m, start, i), selected_to(m, end, i), exclude)
}

/// The number of lines that a selection from `start` to `end` has a part of.
pub open spec fn selected_lines(m: PanelModel, start: TextPos, end: TextPos) -> int {
    greatest(0, least(end.line + 1, m.lines.len() as int) - start.line)
}

/// What is selected of each line from `start` to `end`.
pub open spec fn selected_pieces(
    m: PanelModel,
    start: TextPos,
    end: TextPos,
    exclude: Set<TextPos>,
) -> Seq<Seq<char>> {
    Seq::new(
        selected_lines(m, start, end) as nat,
        |k: int| selected_piece(m, start, end, start.line + k, exclude),
    )
}

/// The text selected between two positions, whichever comes first.
pub open spec fn selected_text(
    m: PanelModel,
    anchor: TextPos,
    cursor: TextPos,
    exclude: Set<TextPos>,
) -> Seq<char> {
    join(
        selected_pieces(m, first_of(anchor, cursor), last_of(anchor, cursor), exclude),
        newline(),
    )
}

/// The number of characters of piece `i` that stand at a position of the text:
/// all of them but a carriage return that belongs to the line's ending.
pub open spec fn line_part(pieces: Seq<Seq<char>>, i: int) -> int {
    if i < pieces.len() - 1 && pieces[i].len() > 0 && pieces[i].last() == '\r' {
        pieces[i].len() - 1
    } else {
        pieces[i].len() as int
    }
}

/// Piece `i` of a text without the characters at a position in `exclude`.
pub open spec fn stripped_piece(
    pieces: Seq<Seq<char>>,
    i: int,
    exclude: Set<TextPos>,
) -> Seq<char> {
    let n = line_part(pieces, i);
    kept(pieces[i], i, 0, n, exclude) + pieces[i].skip(n)
}

/// `text` without the characters at a position in `exclude`. Line endings stand
/// at no position.
pub open spec fn stripped(text: Seq<char>, exclude: Set<TextPos>) -> Seq<char> {
    let pieces = split_newlines(text);
    join(Seq::new(pieces.len(), |i: int| stripped_piece(pieces, i, exclude)), newline())
}

/// The columns of a row that count when text is highlighted.
pub open spec fn cell_width(m: PanelModel) -> int {
    greatest(m.wrap_width(), 1)
}

/// The highlighted cells of the `row`-th row of a panel: its row on screen, the
/// column of the first and the column behind the last.
pub open spec fn row_cells(
    m: PanelModel,
    start: TextPos,
    end: TextPos,
    area: Rect,
    scroll: int,
    row: int,
) -> Seq<(int, int, int)> {
    let i = m.line_at(row);
    let row_start = (row - m.rows_before(i)) * cell_width(m);
    let from = greatest(selected_from(m, start, i), row_start);
    let to = least(
        selected_to(m, end, i),
        least(row_start + cell_width(m), m.lines[i].len() as int),
    );
    if row < m.total_rows() && start.line <= i <= end.line && from < to {
        seq![(area.y + row - scroll, area.x + from - row_start, area.x + to - row_start)]
    } else {
        Seq::<(int, int, int)>::empty()
    }
}

/// The highlighted cells of the first `n` rows below row `scroll`.
pub open spec fn rows_cells(
    m: PanelModel,
    start: TextPos,
    end: TextPos,
    area: Rect,
    scroll: int,
    n: int,
) -> Seq<(int, int, int)>
    decreases n,
{
    if n <= 0 {
        Seq::<(int, int, int)>::empty()
    } else {
        rows_cells(m, start, end, area, scroll, n - 1) + row_cells(
            m,
            start,
            end,
            area,
            scroll,
            scroll + n - 1,
        )
    }
}

/// The cells of `area` that a selection covers.
pub open spec fn selection_cells(
    m: PanelModel,
    anchor: TextPos,
    cursor: TextPos,
    area: Rect,
    scroll: int,
) -> Seq<(int, int, int)> {
    if area.width == 0 {
        Seq::<(int, int, int)>::empty()
    } else {
        rows_cells(
            m,
            first_of(anchor, cursor),
            last_of(anchor, cursor),
            area,
            scroll,
            area.height as int,
        )
    }
}

/// Whether every cell has a row and a column number on screen.
pub open spec fn cells_fit(cells: Seq<(int, int, int)>) -> bool {
    forall|k: int|
        0 <= k < cells.len() ==> (#[trigger] cells[k]).0 <= u16::MAX && cells[k].2 <= u16::MAX
}

// ---------------------------------------------------------------------------
// Positions
// ---------------------------------------------------------------------------

/// The two positions in the order of the text, so that a selection dragged
/// backwards is still one.
pub fn ordered(a: TextPos, b: TextPos) -> (r: (TextPos, TextPos))
    ensures
        r == (first_of(a, b), last_of(a, b)),
{
    if b.precedes(a) {
        (b, a)
    } else {
        (a, b)
    }
}

/// The position under a terminal cell, given as column and row: that of the
/// nearest cell of `area` for one outside it. `scroll` is the row of the text at
/// the top of `area`.
pub fn point_to_textpos(point: (u16, u16), area: Rect, scroll: u16, wrap: &PanelWrap) -> (r:
    TextPos)
    ensures
        r == wrap@.pos_at(scroll + nearest_row(area, point.1), nearest_col(area, point.0)),
        wrap@.has_pos(r),
{
    let (col, row) = point;
    let local_row: u16 = if area.height == 0 || row < area.y {
        0
    } else if row - area.y < area.height {
        row - area.y
    } else {
        area.height - 1
    };
    let local_col: u16 = if area.width == 0 || col < area.x {
        0
    } else if col - area.x < area.width {
        col - area.x
    } else {
        area.width - 1
    };
    wrap.row_col_to_textpos(scroll as u32 + local_row as u32, local_col as usize)
}

/// What is selected of `line`: its first character and the one behind its last.
fn range_for_line(
    line: usize,
    start: TextPos,
    end: TextPos,
    wrap: &PanelWrap,
) -> (r: (usize, usize))
    requires
        line < wrap@.lines.len(),
    ensures
        r.0 == selected_from(wrap@, start, line as int),
        r.1 == selected_to(wrap@, end, line as int),
        r.0 <= wrap@.lines[line as int].len(),
        r.1 <= wrap@.lines[line as int].len(),
{
    let len: usize = wrap.line_char_len(line);
    let from: usize = if line != start.line {
        0
    } else if start.col < len {
        start.col
    } else {
        len
    };
    let to: usize = if line == end.line && end.col < len {
        end.col + 1
    } else {
        len
    };
    (from, to)
}

// ---------------------------------------------------------------------------
// Copying
// ---------------------------------------------------------------------------

/// Appends to `out` the characters `from` up to, but not including, `to` of
/// `text`, which is line number `line`, without those at a position in
/// `exclude`.
fn push_kept(
    out: &mut String,
    text: &str,
    line: usize,
    from: usize,
    to: usize,
    exclude: Option<&PosSet>,
)
    requires
        from <= text@.len(),
        to <= text@.len(),
    ensures
        final(out)@ == old(out)@ + kept(
            text@,
            line as int,
            from as int,
            to as int,
            excluded(exclude),
        ),
{
    let ghost start = out@;
    let ghost set = excluded(exclude);
    let mut it = text.chars();
    let mut i: usize = 0;
    assert(text@.skip(0) =~= text@);
    assert(start + Seq::<char>::empty() =~= start);
    while i < to
        invariant
            from <= text@.len(),
            to <= text@.len(),
            i <= to,
            start == old(out)@,
            set == excluded(exclude),
            vstd::std_specs::iter::IteratorSpec::remaining(&it) == text@.skip(i as int),
            out@ == start + kept(text@, line as int, from as int, i as int, set),
        decreases to - i,
    {
        let ghost before = kept(text@, line as int, from as int, i as int, set);
        assert(text@.skip(i as int).drop_first() =~= text@.skip(i + 1));
        if let Some(c) = it.next() {
            assert(text@.skip(i as int)[0] == text@[i as int]);
            if i >= from {
                let hidden: bool = match exclude {
                    Some(set) => set.contains(TextPos::new(line, i)),
                    None => false,
                };
                if !hidden {
                    out.push(c);
                    assert((start + before).push(c) =~= start + before.push(c));
                }
            }
        }
        i = i + 1;
    }
    if to < from {
        assert(kept(text@, line as int, from as int, to as int, set) =~= Seq::<char>::empty());
    }
}

/// The text between two positions, both included, its lines joined by line
/// feeds; nothing where it is empty or blank. Characters at a position in
/// `exclude` are left out, so that what is only drawn into a panel is not
/// copied from it. The cost is that of the selected lines alone.
pub fn extract_text(
    anchor: TextPos,
    cursor: TextPos,
    wrap: &PanelWrap,
    exclude: Option<&PosSet>,
) -> (r: Option<String>)
    ensures
        match r {
            Some(text) => text@ == selected_text(wrap@, anchor, cursor, excluded(exclude))
                && !is_blank(text@),
            None => is_blank(selected_text(wrap@, anchor, cursor, excluded(exclude))),
        },
{
    let ghost m = wrap@;
    let ghost set = excluded(exclude);
    let (start, end) = ordered(anchor, cursor);
    let ghost pieces = selected_pieces(m, start, end, set);
    let count: usize = wrap.line_count();
    let mut out = String::new();
    let mut line: usize = start.line;
    assert(pieces.take(0) =~= Seq::<Seq<char>>::empty());
    while line < count && line <= end.line
        invariant
            m == wrap@,
            set == excluded(exclude),
            count == m.lines.len(),
            pieces == selected_pieces(m, start, end, set),
            start == first_of(anchor, cursor),
            end == last_of(anchor, cursor),
            start.line <= line,
            line > start.line ==> line <= count && line <= end.line + 1,
            line - start.line <= pieces.len(),
            out@ == join(pieces.take(line - start.line), newline()),
        decreases count - line,
    {
        let ghost k = line - start.line;
        let ghost before = out@;
        if line > start.line {
            out.push('\n');
            assert(out@ =~= before + newline());
        }
        let text: &str = wrap.line_text(line);
        let (from, to) = range_for_line(line, start, end, wrap);
        push_kept(&mut out, text, line, from, to, exclude);
        proof {
            assert(pieces[k] == selected_piece(m, start, end, line as int, set));
            assert(pieces.take(k + 1).drop_last() =~= pieces.take(k));
            assert(pieces.take(k + 1).last() == pieces[k]);
            if k == 0 {
                assert(before =~= Seq::<char>::empty());
                assert(out@ =~= pieces.take(1)[0]);
            }
        }
        line = line + 1;
    }
    assert(pieces.take(pieces.len() as int) =~= pieces);
    assert(line - start.line == pieces.len());
    if blank(out.as_str()) {
        None
    } else {
        Some(out)
    }
}

/// `text` without the characters at a position in `exclude`, for copying a whole
/// panel. Everything else is kept, the line endings included.
pub fn strip_positions(text: &str, exclude: &PosSet) -> (r: String)
    ensures
        r@ == stripped(text@, exclude@),
{
    let ghost pieces = split_newlines(text@);
    let ghost kept_pieces = Seq::new(
        pieces.len(),
        |i: int| stripped_piece(pieces, i, exclude@),
    );
    if exclude.is_empty() {
        proof {
            law_nothing_stripped(text@);
        }
        return text.to_owned();
    }
    let parts = split_text(text);
    let mut out = String::new();
    let mut i: usize = 0;
    assert(texts(parts@).len() == parts@.len());
    assert(kept_pieces.take(0) =~= Seq::<Seq<char>>::empty());
    while i < parts.len()
        invariant
            i <= parts.len(),
            pieces == split_newlines(text@),
            texts(parts@) == pieces,
            parts@.len() == pieces.len(),
            kept_pieces == Seq::new(pieces.len(), |k: int| stripped_piece(pieces, k, exclude@)),
            out@ == join(kept_pieces.take(i as int), newline()),
        decreases parts.len() - i,
    {
        let ghost before = out@;
        if i > 0 {
            out.push('\n');
            assert(out@ =~= before + newline());
        }
        let ghost with_sep = out@;
        let part: &str = parts[i].as_str();
        let len: usize = part.unicode_len();
        assert(texts(parts@)[i as int] == part@);
        let ends_in_return: bool = i + 1 < parts.len() && len > 0 && part.get_char(len - 1)
            == '\r';
        let n: usize = if ends_in_return {
            len - 1
        } else {
            len
        };
        push_kept(&mut out, part, i, 0, n, Some(exclude));
        if ends_in_return {
            out.push('\r');
            assert(part@.skip(n as int) =~= seq!['\r']);
        } else {
            assert(part@.skip(n as int) =~= Seq::<char>::empty());
        }
        proof {
            assert(n == line_part(pieces, i as int));
            assert(out@ =~= with_sep + kept_pieces[i as int]);
            assert(kept_pieces.take(i + 1).drop_last() =~= kept_pieces.take(i as int));
            assert(kept_pieces.take(i + 1).last() == kept_pieces[i as int]);
            if i == 0 {
                assert(before =~= Seq::<char>::empty());
                assert(out@ =~= kept_pieces.take(1)[0]);
            }
        }
        i = i + 1;
    }
    assert(kept_pieces.take(kept_pieces.len() as int) =~= kept_pieces);
    out
}

/// Leaving nothing out keeps the characters as they are.
pub proof fn lemma_all_kept(chars: Seq<char>, line: int, from: int, to: int)
    requires
        0 <= from <= to <= chars.len(),
    ensures
        kept(chars, line, from, to, Set::<TextPos>::empty()) == chars.subrange(from, to),
    decreases to - from,
{
    if from < to {
        lemma_all_kept(chars, line, from, to - 1);
        assert(chars.subrange(from, to) =~= chars.subrange(from, to - 1).push(chars[to - 1]));
    } else {
        assert(chars.subrange(from, to) =~= Seq::<char>::empty());
    }
}

/// Stripping no positions gives the text back, character for character.
pub proof fn law_nothing_stripped(text: Seq<char>)
    ensures
        stripped(text, Set::<TextPos>::empty()) == text,
{
    let none = Set::<TextPos>::empty();
    let pieces = split_newlines(text);
    assert forall|i: int| 0 <= i < pieces.len() implies #[trigger] stripped_piece(pieces, i, none)
        == pieces[i] by {
        let n = line_part(pieces, i);
        lemma_all_kept(pieces[i], i, 0, n);
        assert(pieces[i].subrange(0, n) + pieces[i].skip(n) =~= pieces[i]);
    }
    assert(Seq::new(pieces.len(), |i: int| stripped_piece(pieces, i, none)) =~= pieces);
    law_join_undoes_split(text);
}

// ---------------------------------------------------------------------------
// Highlighting
// ---------------------------------------------------------------------------

/// The cells of `area` that a selection between two positions covers, as rows
/// with their first column and the column behind their last, from top to
/// bottom. `scroll` is the row of the text at the top of `area`. Only the rows
/// in sight are looked at, however much is selected.
pub fn highlight_cells(
    anchor: TextPos,
    cursor: TextPos,
    wrap: &PanelWrap,
    area: Rect,
    scroll: u16,
) -> (r: Vec<(u16, u16, u16)>)
    requires
        cells_fit(selection_cells(wrap@, anchor, cursor, area, scroll as int)),
    ensures
        cell_numbers(r@) == selection_cells(wrap@, anchor, cursor, area, scroll as int),
{
    proof {
        use_type_invariant(wrap);
    }
    let ghost m = wrap@;
    let mut out: Vec<(u16, u16, u16)> = Vec::new();
    assert(cell_numbers(out@) =~= Seq::<(int, int, int)>::empty());
    if area.width == 0 {
        return out;
    }
    let (start, end) = ordered(anchor, cursor);
    let total: u32 = wrap.total_rows();
    let width: usize = if wrap.wrap_width() == 0 {
        1
    } else {
        wrap.wrap_width()
    };
    let mut k: u16 = 0;
    while k < area.height
        invariant
            m == wrap@,
            m.wf(),
            k <= area.height,
            total == m.total_rows(),
            width == cell_width(m),
            cells_fit(rows_cells(m, start, end, area, scroll as int, area.height as int)),
            cell_numbers(out@) == rows_cells(m, start, end, area, scroll as int, k as int),
        decreases area.height - k,
    {
        let row: u32 = scroll as u32 + k as u32;
        let ghost before = out@;
        let ghost cells = row_cells(m, start, end, area, scroll as int, row as int);
        if row < total {
            proof {
                lemma_row_line(m, row as int);
            }
            let (line, row_in_line) = wrap.locate(row);
            proof {
                lemma_row_bounds(m, line as int, row_in_line as int);
                lemma_row_start(m, line as int, row_in_line as int);
                lemma_cells_prefix(
                    m,
                    start,
                    end,
                    area,
                    scroll as int,
                    k + 1,
                    area.height as int,
                );
            }
            if start.line <= line && line <= end.line {
                let len: usize = wrap.line_char_len(line);
                let row_start: usize = row_in_line as usize * width;
                let row_end: usize = if len - row_start > width {
                    row_start + width
                } else {
                    len
                };
                let (first, behind) = range_for_line(line, start, end, wrap);
                let from: usize = if first > row_start {
                    first
                } else {
                    row_start
                };
                let to: usize = if behind < row_end {
                    behind
                } else {
                    row_end
                };
                if from < to {
                    let ghost cell = (
                        area.y + k,
                        area.x + from - row_start,
                        area.x + to - row_start,
                    );
                    proof {
                        assert(cells =~= seq![cell]);
                        let all = rows_cells(
                            m,
                            start,
                            end,
                            area,
                            scroll as int,
                            area.height as int,
                        );
                        let sofar = rows_cells(m, start, end, area, scroll as int, k + 1);
                        let n = before.len() as int;
                        assert(sofar[n] == cell);
                        assert(all.take(sofar.len() as int)[n] == cell);
                        assert(all[n] == cell);
                    }
                    out.push(
                        (
                            area.y + k,
                            area.x + (from - row_start) as u16,
                            area.x + (to - row_start) as u16,
                        ),
                    );
                    assert(cell_numbers(out@) =~= cell_numbers(before).push(cell));
                    assert(cell_numbers(out@) =~= cell_numbers(before) + cells);
                } else {
                    assert(cell_numbers(out@) =~= cell_numbers(before) + cells);
                }
            } else {
                assert(cell_numbers(out@) =~= cell_numbers(before) + cells);
            }
        } else {
            assert(cell_numbers(out@) =~= cell_numbers(before) + cells);
        }
        k = k + 1;
    }
    out
}

/// The cells of the first rows come first.
proof fn lemma_cells_prefix(
    m: PanelModel,
    start: TextPos,
    end: TextPos,
    area: Rect,
    scroll: int,
    k: int,
    n: int,
)
    requires
        0 <= k <= n,
    ensures
        rows_cells(m, start, end, area, scroll, k).len() <= rows_cells(
            m,
            start,
            end,
            area,
            scroll,
            n,
        ).len(),
        rows_cells(m, start, end, area, scroll, n).take(
            rows_cells(m, start, end, area, scroll, k).len() as int,
        ) == rows_cells(m, start, end, area, scroll, k),
    decreases n - k,
{
    let less = rows_cells(m, start, end, area, scroll, k);
    let all = rows_cells(m, start, end, area, scroll, n);
    if k < n {
        lemma_cells_prefix(m, start, end, area, scroll, k, n - 1);
        let most = rows_cells(m, start, end, area, scroll, n - 1);
        assert(all.take(less.len() as int) =~= most.take(less.len() as int));
    } else {
        assert(all.take(less.len() as int) =~= less);
    }
}

/// A row of a line starts at a character of it, or at its end.
proof fn lemma_row_start(m: PanelModel, i: int, r: int)
    requires
        m.wf(),
        0 <= i < m.lines.len(),
        0 <= r < m.line_rows(i),
    ensures
        0 <= r * cell_width(m) <= m.lines[i].len(),
{
    lemma_row_bounds(m, i, r);
    if m.mode == WrapMode::Clip || m.wrap_width() == 0 {
        assert(r * cell_width(m) == 0) by (nonlinear_arith)
            requires
                r == 0,
        ;
    }
}

// ---------------------------------------------------------------------------
// Laws
// ---------------------------------------------------------------------------

/// A selection is the same whichever of its ends it was dragged from.
pub proof fn law_direction_does_not_matter(
    m: PanelModel,
    a: TextPos,
    b: TextPos,
    exclude: Set<TextPos>,
    area: Rect,
    scroll: int,
)
    ensures
        selected_text(m, a, b, exclude) == selected_text(m, b, a, exclude),
        selection_cells(m, a, b, area, scroll) == selection_cells(m, b, a, area, scroll),
{
    assert(first_of(a, b) == first_of(b, a));
    assert(last_of(a, b) == last_of(b, a));
}

/// A selection covers the same characters however the text is laid out: what is
/// selected depends on the lines alone, not on the panel's width, mode, marker
/// or styles.
pub proof fn law_selection_survives_layout(
    m: PanelModel,
    other: PanelModel,
    anchor: TextPos,
    cursor: TextPos,
    exclude: Set<TextPos>,
)
    requires
        m.lines == other.lines,
    ensures
        selected_text(m, anchor, cursor, exclude) == selected_text(
            other,
            anchor,
            cursor,
            exclude,
        ),
{
    let start = first_of(anchor, cursor);
    let end = last_of(anchor, cursor);
    assert(selected_pieces(m, start, end, exclude) =~= selected_pieces(
        other,
        start,
        end,
        exclude,
    ));
}

/// Highlighted cells lie on rows of the area, and left of the width that lines
/// are broken at: neither outside the panel nor on the column of a marker.
pub proof fn law_highlight_stays_inside(
    m: PanelModel,
    anchor: TextPos,
    cursor: TextPos,
    area: Rect,
    scroll: int,
    k: int,
)
    requires
        m.wf(),
        0 <= scroll,
        0 <= k < selection_cells(m, anchor, cursor, area, scroll).len(),
    ensures
        ({
            let cell = selection_cells(m, anchor, cursor, area, scroll)[k];
            &&& area.y <= cell.0 < area.y + area.height
            &&& area.x <= cell.1 < cell.2 <= area.x + greatest(m.wrap_width(), 1)
        }),
{
    lemma_cells_inside(
        m,
        first_of(anchor, cursor),
        last_of(anchor, cursor),
        area,
        scroll,
        area.height as int,
        k,
    );
}

proof fn lemma_cells_inside(
    m: PanelModel,
    start: TextPos,
    end: TextPos,
    area: Rect,
    scroll: int,
    n: int,
    k: int,
)
    requires
        m.wf(),
        0 <= scroll,
        0 <= k < rows_cells(m, start, end, area, scroll, n).len(),
    ensures
        ({
            let cell = rows_cells(m, start, end, area, scroll, n)[k];
            &&& area.y <= cell.0 < area.y + n
            &&& area.x <= cell.1 < cell.2 <= area.x + cell_width(m)
        }),
    decreases n,
{
    let before = rows_cells(m, start, end, area, scroll, n - 1);
    let cells = row_cells(m, start, end, area, scroll, scroll + n - 1);
    if k < before.len() {
        lemma_cells_inside(m, start, end, area, scroll, n - 1, k);
        assert(rows_cells(m, start, end, area, scroll, n)[k] == before[k]);
    } else {
        assert(rows_cells(m, start, end, area, scroll, n)[k] == cells[k - before.len()]);
    }
}

/// On a screen that the area and the lines' width fit on, every highlighted cell
/// has a row and a column number.
pub proof fn law_highlight_fits(
    m: PanelModel,
    anchor: TextPos,
    cursor: TextPos,
    area: Rect,
    scroll: int,
)
    requires
        m.wf(),
        0 <= scroll,
        area.rows_fit(),
        area.x + greatest(m.wrap_width(), 1) <= u16::MAX,
    ensures
        cells_fit(selection_cells(m, anchor, cursor, area, scroll)),
{
    let cells = selection_cells(m, anchor, cursor, area, scroll);
    assert forall|k: int| 0 <= k < cells.len() implies (#[trigger] cells[k]).0 <= u16::MAX
        && cells[k].2 <= u16::MAX by {
        law_highlight_stays_inside(m, anchor, cursor, area, scroll, k);
    }
}

/// Whether a position is selected: it comes neither before the earlier end of
/// the selection nor behind the later one.
pub open spec fn is_selected(anchor: TextPos, cursor: TextPos, pos: TextPos) -> bool {
    !pos.before(first_of(anchor, cursor)) && !last_of(anchor, cursor).before(pos)
}

/// Whether `cells` cover column `col` of row `row`.
pub open spec fn covers(cells: Seq<(int, int, int)>, row: int, col: int) -> bool {
    exists|j: int|
        0 <= j < cells.len() && (#[trigger] cells[j]).0 == row && cells[j].1 <= col < cells[j].2
}

/// A cell that shows a character is highlighted exactly if the character is
/// selected.
pub proof fn law_highlight_is_the_selection(
    m: PanelModel,
    anchor: TextPos,
    cursor: TextPos,
    area: Rect,
    scroll: int,
    k: int,
    c: int,
)
    requires
        m.wf(),
        m.wrap_width() > 0,
        area.width > 0,
        0 <= scroll,
        0 <= k < area.height,
        scroll + k < m.total_rows(),
        0 <= c,
        ({
            let i = m.line_at(scroll + k);
            let r = scroll + k - m.rows_before(i);
            m.row_from(i, r) + c < m.row_to(i, r)
        }),
    ensures
        covers(selection_cells(m, anchor, cursor, area, scroll), area.y + k, area.x + c)
            <==> is_selected(anchor, cursor, m.pos_at(scroll + k, c)),
{
    let row = scroll + k;
    let i = m.line_at(row);
    let r = row - m.rows_before(i);
    let start = first_of(anchor, cursor);
    let end = last_of(anchor, cursor);
    let own = row_cells(m, start, end, area, scroll, row);
    let all = selection_cells(m, anchor, cursor, area, scroll);
    lemma_row_line(m, row);
    lemma_row_bounds(m, i, r);
    lemma_row_start(m, i, r);
    assert(m.lines[i].len() <= usize::MAX);
    if m.mode == WrapMode::Clip {
        assert(r * cell_width(m) == 0 && r * m.wrap_width() == 0) by (nonlinear_arith)
            requires
                r == 0,
        ;
    }
    let pos = m.pos_at(row, c);
    assert(pos.line == i && pos.col == m.row_from(i, r) + c);
    assert(is_selected(anchor, cursor, pos) <==> own.len() == 1 && own[0].1 <= area.x + c
        < own[0].2);
    if own.len() == 1 && own[0].1 <= area.x + c < own[0].2 {
        let j = lemma_cell_of_row(m, start, end, area, scroll, area.height as int, k);
        assert(all[j] == own[0]);
    }
    if covers(all, area.y + k, area.x + c) {
        let j = choose|j: int|
            0 <= j < all.len() && (#[trigger] all[j]).0 == area.y + k && all[j].1 <= area.x + c
                < all[j].2;
        lemma_row_of_cell(m, start, end, area, scroll, area.height as int, j);
    }
}

/// Where the cell of a row stands among all.
proof fn lemma_cell_of_row(
    m: PanelModel,
    start: TextPos,
    end: TextPos,
    area: Rect,
    scroll: int,
    n: int,
    k: int,
) -> (j: int)
    requires
        0 <= k < n,
        row_cells(m, start, end, area, scroll, scroll + k).len() == 1,
    ensures
        0 <= j < rows_cells(m, start, end, area, scroll, n).len(),
        rows_cells(m, start, end, area, scroll, n)[j] == row_cells(
            m,
            start,
            end,
            area,
            scroll,
            scroll + k,
        )[0],
    decreases n,
{
    let before = rows_cells(m, start, end, area, scroll, n - 1);
    if k == n - 1 {
        before.len() as int
    } else {
        let j = lemma_cell_of_row(m, start, end, area, scroll, n - 1, k);
        assert(rows_cells(m, start, end, area, scroll, n)[j] == before[j]);
        j
    }
}

/// Every cell is that of the row it is on.
proof fn lemma_row_of_cell(
    m: PanelModel,
    start: TextPos,
    end: TextPos,
    area: Rect,
    scroll: int,
    n: int,
    j: int,
)
    requires
        0 <= j < rows_cells(m, start, end, area, scroll, n).len(),
    ensures
        ({
            let cell = rows_cells(m, start, end, area, scroll, n)[j];
            let own = row_cells(m, start, end, area, scroll, scroll + (cell.0 - area.y));
            own.len() == 1 && own[0] == cell
        }),
    decreases n,
{
    let before = rows_cells(m, start, end, area, scroll, n - 1);
    let last = row_cells(m, start, end, area, scroll, scroll + n - 1);
    if j < before.len() {
        lemma_row_of_cell(m, start, end, area, scroll, n - 1, j);
        assert(rows_cells(m, start, end, area, scroll, n)[j] == before[j]);
    } else {
        assert(rows_cells(m, start, end, area, scroll, n)[j] == last[j - before.len()]);
    }
}

/// Where nothing is left out, a selection takes its part of every line as it is:
/// the first line from the start column on, the last up to the end column, and
/// the lines between in full.
pub proof fn law_selection_is_a_stream(m: PanelModel, start: TextPos, end: TextPos, i: int)
    requires
        0 <= i < m.lines.len(),
        start.line <= i <= end.line,
        selected_from(m, start, i) <= selected_to(m, end, i),
    ensures
        selected_piece(m, start, end, i, Set::<TextPos>::empty()) == m.lines[i].subrange(
            selected_from(m, start, i),
            selected_to(m, end, i),
        ),
        start.line < i < end.line ==> selected_piece(
            m,
            start,
            end,
            i,
            Set::<TextPos>::empty(),
        ) == m.lines[i],
{
    lemma_all_kept(m.lines[i], i, selected_from(m, start, i), selected_to(m, end, i));
    assert(m.lines[i].subrange(0, m.lines[i].len() as int) =~= m.lines[i]);
}

/// A selection from the first to the last position of a text takes all of its
/// lines.
pub proof fn law_selecting_all_takes_all(m: PanelModel, last: TextPos)
    requires
        m.wf(),
        last.line == m.lines.len() - 1,
        last.col == m.lines[last.line as int].len(),
    ensures
        selected_text(m, TextPos { line: 0, col: 0 }, last, Set::<TextPos>::empty()) == join(
            m.lines,
            newline(),
        ),
{
    let first = TextPos { line: 0, col: 0 };
    let none = Set::<TextPos>::empty();
    let pieces = selected_pieces(m, first, last, none);
    assert forall|i: int| 0 <= i < m.lines.len() implies #[trigger] pieces[i] == m.lines[i] by {
        law_selection_is_a_stream(m, first, last, i);
        assert(m.lines[i].subrange(0, m.lines[i].len() as int) =~= m.lines[i]);
    }
    assert(pieces =~= m.lines);
}

/// The characters of a line that `keep` picks by their columns, in their order.
pub open spec fn picked(line: Seq<char>, keep: spec_fn(int) -> bool) -> Seq<char> {
    Seq::new(line.len(), |c: int| c).filter(keep).map_values(|c: int| line[c])
}

/// Whether a position lies between two others, or at one of them, whichever of
/// the two comes first.
pub open spec fn lies_between(a: TextPos, b: TextPos, pos: TextPos) -> bool {
    (!pos.before(a) && !b.before(pos)) || (!pos.before(b) && !a.before(pos))
}

/// Character `c` of line `i` as a position.
pub open spec fn char_pos(i: int, c: int) -> TextPos {
    TextPos { line: i as usize, col: c as usize }
}

/// Keeping a range of columns without the excluded ones picks the columns that are
/// in the range and not excluded.
proof fn lemma_kept_is_picked(
    chars: Seq<char>,
    line: int,
    from: int,
    to: int,
    exclude: Set<TextPos>,
    keep: spec_fn(int) -> bool,
    n: int,
)
    requires
        0 <= n <= chars.len(),
        0 <= from,
        0 <= to <= chars.len(),
        forall|c: int|
            0 <= c < chars.len() ==> (#[trigger] keep(c) <==> from <= c < to && !exclude.contains(
                char_pos(line, c),
            )),
    ensures
        kept(chars, line, from, least(n, to), exclude) == Seq::new(n as nat, |c: int| c).filter(
            keep,
        ).map_values(|c: int| chars[c]),
    decreases n,
{
    reveal(Seq::filter);
    let columns = Seq::new(n as nat, |c: int| c);
    let pick = |c: int| chars[c];
    if n > 0 {
        lemma_kept_is_picked(chars, line, from, to, exclude, keep, n - 1);
        let less = Seq::new((n - 1) as nat, |c: int| c);
        assert(columns.drop_last() =~= less);
        assert(columns.last() == n - 1);
        assert(keep(n - 1) <==> from <= n - 1 < to && !exclude.contains(char_pos(line, n - 1)));
        if keep(n - 1) {
            assert(columns.filter(keep) == less.filter(keep).push(n - 1));
            assert(columns.filter(keep).map_values(pick) =~= less.filter(keep).map_values(
                pick,
            ).push(chars[n - 1]));
        } else {
            assert(columns.filter(keep) == less.filter(keep));
        }
    } else {
        assert(columns.filter(keep).map_values(pick) =~= Seq::<char>::empty());
    }
}

/// What is copied of a line are exactly its characters that lie between the
/// selection's ends and are not excluded, in their order, whichever line it is.
pub proof fn law_copy_leaves_out_the_excluded(
    m: PanelModel,
    anchor: TextPos,
    cursor: TextPos,
    exclude: Set<TextPos>,
    i: int,
)
    requires
        m.wf(),
        0 <= i < m.lines.len(),
        anchor.line <= i <= cursor.line || cursor.line <= i <= anchor.line,
    ensures
        selected_piece(m, first_of(anchor, cursor), last_of(anchor, cursor), i, exclude) == picked(
            m.lines[i],
            |c: int|
                lies_between(anchor, cursor, char_pos(i, c)) && !exclude.contains(char_pos(i, c)),
        ),
{
    let start = first_of(anchor, cursor);
    let end = last_of(anchor, cursor);
    let len = m.lines[i].len() as int;
    let from = selected_from(m, start, i);
    let to = selected_to(m, end, i);
    let keep = |c: int|
        lies_between(anchor, cursor, char_pos(i, c)) && !exclude.contains(char_pos(i, c));
    assert(len <= usize::MAX);
    assert forall|c: int| 0 <= c < len implies (#[trigger] keep(c) <==> from <= c < to
        && !exclude.contains(char_pos(i, c))) by {
        assert(char_pos(i, c).line == i && char_pos(i, c).col == c);
    }
    lemma_kept_is_picked(m.lines[i], i, from, to, exclude, keep, len);
}

/// A copy holds such a part of every line from the one end of the selection to
/// the other, as far as the text goes, with line feeds between.
pub proof fn law_copy_is_the_selection(
    m: PanelModel,
    anchor: TextPos,
    cursor: TextPos,
    exclude: Set<TextPos>,
)
    requires
        m.wf(),
    ensures
        ({
            let lo = least(anchor.line as int, cursor.line as int);
            let hi = least(greatest(anchor.line as int, cursor.line as int), m.lines.len() - 1);
            let parts = Seq::new(
                greatest(hi + 1 - lo, 0) as nat,
                |k: int|
                    picked(
                        m.lines[lo + k],
                        |c: int|
                            lies_between(anchor, cursor, char_pos(lo + k, c))
                                && !exclude.contains(char_pos(lo + k, c)),
                    ),
            );
            selected_text(m, anchor, cursor, exclude) == join(parts, newline())
        }),
{
    let start = first_of(anchor, cursor);
    let end = last_of(anchor, cursor);
    let lo = least(anchor.line as int, cursor.line as int);
    let hi = least(greatest(anchor.line as int, cursor.line as int), m.lines.len() - 1);
    let parts = Seq::new(
        greatest(hi + 1 - lo, 0) as nat,
        |k: int|
            picked(
                m.lines[lo + k],
                |c: int|
                    lies_between(anchor, cursor, char_pos(lo + k, c)) && !exclude.contains(
                        char_pos(lo + k, c),
                    ),
            ),
    );
    let pieces = selected_pieces(m, start, end, exclude);
    assert forall|k: int| 0 <= k < parts.len() implies pieces[k] == #[trigger] parts[k] by {
        law_copy_leaves_out_the_excluded(m, anchor, cursor, exclude, lo + k);
        let i = lo + k;
        let a = |c: int|
            lies_between(anchor, cursor, char_pos(i, c)) && !exclude.contains(char_pos(i, c));
        let b = |c: int|
            lies_between(anchor, cursor, char_pos(lo + k, c)) && !exclude.contains(
                char_pos(lo + k, c),
            );
        assert(a =~= b);
    }
    assert(pieces =~= parts);
}

/// What stands at excluded positions has no influence on a copy: texts that
/// differ only there give the same one.
pub proof fn law_excluded_characters_do_not_matter(
    m: PanelModel,
    other: PanelModel,
    anchor: TextPos,
    cursor: TextPos,
    exclude: Set<TextPos>,
)
    requires
        m.lines.len() == other.lines.len(),
        forall|i: int|
            0 <= i < m.lines.len() ==> (#[trigger] m.lines[i]).len() == other.lines[i].len(),
        forall|i: int, c: int|
            0 <= i < m.lines.len() && 0 <= c < m.lines[i].len() && !exclude.contains(char_pos(i, c))
                ==> #[trigger] m.lines[i][c] == other.lines[i][c],
    ensures
        selected_text(m, anchor, cursor, exclude) == selected_text(
            other,
            anchor,
            cursor,
            exclude,
        ),
{
    let start = first_of(anchor, cursor);
    let end = last_of(anchor, cursor);
    let pieces = selected_pieces(m, start, end, exclude);
    let others = selected_pieces(other, start, end, exclude);
    assert forall|k: int| 0 <= k < pieces.len() implies #[trigger] pieces[k] == others[k] by {
        let i = start.line + k;
        lemma_kept_alike(
            m.lines[i],
            other.lines[i],
            i,
            selected_from(m, start, i),
            selected_to(m, end, i),
            exclude,
        );
    }
    assert(pieces =~= others);
}

/// What is kept depends on the characters in the range that are not excluded.
proof fn lemma_kept_alike(
    a: Seq<char>,
    b: Seq<char>,
    line: int,
    from: int,
    to: int,
    exclude: Set<TextPos>,
)
    requires
        0 <= from,
        to <= a.len(),
        to <= b.len(),
        forall|c: int|
            0 <= c < to && !exclude.contains(char_pos(line, c)) ==> #[trigger] a[c] == b[c],
    ensures
        kept(a, line, from, to, exclude) == kept(b, line, from, to, exclude),
    decreases to - from,
{
    if from < to {
        lemma_kept_alike(a, b, line, from, to - 1, exclude);
        assert(char_pos(line, to - 1) == (TextPos { line: line as usize, col: (to - 1) as usize }));
        if !exclude.contains(char_pos(line, to - 1)) {
            assert(a[to - 1] == b[to - 1]);
        }
    }
}

/// Stripping a text takes exactly the excluded characters out of every line, the
/// others stay in their order; line feeds stay, and so does a carriage return
/// before one.
pub proof fn law_stripping_takes_out_the_excluded(text: Seq<char>, exclude: Set<TextPos>)
    ensures
        ({
            let pieces = split_newlines(text);
            let left = Seq::new(
                pieces.len(),
                |i: int|
                    picked(
                        pieces[i],
                        |c: int|
                            !exclude.contains(char_pos(i, c)) || (i + 1 < pieces.len() && c + 1
                                == pieces[i].len() && pieces[i][c] == '\r'),
                    ),
            );
            stripped(text, exclude) == join(left, newline())
        }),
{
    let pieces = split_newlines(text);
    let left = Seq::new(
        pieces.len(),
        |i: int|
            picked(
                pieces[i],
                |c: int|
                    !exclude.contains(char_pos(i, c)) || (i + 1 < pieces.len() && c + 1
                        == pieces[i].len() && pieces[i][c] == '\r'),
            ),
    );
    let own = Seq::new(pieces.len(), |i: int| stripped_piece(pieces, i, exclude));
    assert forall|i: int| 0 <= i < pieces.len() implies #[trigger] own[i] == left[i] by {
        let keep = |c: int|
            !exclude.contains(char_pos(i, c)) || (i + 1 < pieces.len() && c + 1 == pieces[i].len()
                && pieces[i][c] == '\r');
        lemma_stripped_is_picked(pieces, i, exclude, keep);
    }
    assert(own =~= left);
}

proof fn lemma_stripped_is_picked(
    pieces: Seq<Seq<char>>,
    i: int,
    exclude: Set<TextPos>,
    keep: spec_fn(int) -> bool,
)
    requires
        0 <= i < pieces.len(),
        forall|c: int|
            0 <= c < pieces[i].len() ==> (#[trigger] keep(c) <==> !exclude.contains(char_pos(i, c))
                || (i + 1 < pieces.len() && c + 1 == pieces[i].len() && pieces[i][c] == '\r')),
    ensures
        stripped_piece(pieces, i, exclude) == picked(pieces[i], keep),
{
    let piece = pieces[i];
    let n = line_part(pieces, i);
    let len = piece.len() as int;
    if n == len {
        assert forall|c: int| 0 <= c < len implies (#[trigger] keep(c) <==> 0 <= c < n
            && !exclude.contains(char_pos(i, c))) by {
            if c + 1 == len && i + 1 < pieces.len() {
                assert(piece.last() == piece[c]);
            }
        }
        lemma_kept_is_picked(piece, i, 0, n, exclude, keep, len);
        assert(piece.skip(n) =~= Seq::<char>::empty());
        assert(stripped_piece(pieces, i, exclude) =~= kept(piece, i, 0, n, exclude));
    } else {
        let line = piece.take(n);
        lemma_kept_alike(piece, line, i, 0, n, exclude);
        assert forall|c: int| 0 <= c < n implies (#[trigger] keep(c) <==> 0 <= c < n
            && !exclude.contains(char_pos(i, c))) by {}
        lemma_kept_is_picked(line, i, 0, n, exclude, keep, n);
        let columns = Seq::new(len as nat, |c: int| c);
        let less = Seq::new(n as nat, |c: int| c);
        reveal(Seq::filter);
        assert(columns.drop_last() =~= less);
        assert(keep(n));
        assert(columns.filter(keep) == less.filter(keep).push(n));
        assert forall|k: int| 0 <= k < less.filter(keep).len() implies 0
            <= #[trigger] less.filter(keep)[k] < n by {
            less.lemma_filter_contains_rev(keep, less.filter(keep)[k]);
        }
        assert(piece.skip(n) =~= seq![piece[n]]);
        assert(picked(piece, keep) =~= picked(line, keep) + piece.skip(n));
    }
}

/// Of two positions, one comes before the other unless they are the same: that on
/// the earlier line, or of two on a line that in the earlier column.
pub proof fn law_positions_are_in_text_order(a: TextPos, b: TextPos)
    ensures
        a.line < b.line ==> a.before(b) && !b.before(a),
        a.line == b.line && a.col < b.col ==> a.before(b) && !b.before(a),
        !a.before(a),
{
}

/// Putting two positions in order gives the same two positions, the later one not
/// first.
pub proof fn law_ordering_keeps_both(a: TextPos, b: TextPos)
    ensures
        (first_of(a, b) == a && last_of(a, b) == b) || (first_of(a, b) == b && last_of(a, b) == a),
        !last_of(a, b).before(first_of(a, b)),
        forall|pos: TextPos|
            #[trigger] is_selected(a, b, pos) <==> lies_between(a, b, pos),
{
}

/// A point inside an area is taken as it is, and one outside as the nearest cell of
/// the area: no row or column of it is nearer.
pub proof fn law_point_is_taken_to_the_nearest_cell(area: Rect, point: (u16, u16), r: int, c: int)
    requires
        0 <= r < area.height,
        0 <= c < area.width,
    ensures
        ({
            let distance = |a: int, b: int|
                if a < b {
                    b - a
                } else {
                    a - b
                };
            let row = nearest_row(area, point.1);
            let col = nearest_col(area, point.0);
            &&& 0 <= row < area.height
            &&& 0 <= col < area.width
            &&& distance(area.y + row, point.1 as int) <= distance(area.y + r, point.1 as int)
            &&& distance(area.x + col, point.0 as int) <= distance(area.x + c, point.0 as int)
        }),
{
}

/// The cells of a selection come from the top down, at most one part of each row.
pub proof fn law_highlight_goes_down(
    m: PanelModel,
    anchor: TextPos,
    cursor: TextPos,
    area: Rect,
    scroll: int,
    j: int,
    k: int,
)
    requires
        m.wf(),
        0 <= scroll,
        0 <= j < k < selection_cells(m, anchor, cursor, area, scroll).len(),
    ensures
        selection_cells(m, anchor, cursor, area, scroll)[j].0 < selection_cells(
            m,
            anchor,
            cursor,
            area,
            scroll,
        )[k].0,
{
    lemma_cells_go_down(
        m,
        first_of(anchor, cursor),
        last_of(anchor, cursor),
        area,
        scroll,
        area.height as int,
        j,
        k,
    );
}

proof fn lemma_cells_go_down(
    m: PanelModel,
    start: TextPos,
    end: TextPos,
    area: Rect,
    scroll: int,
    n: int,
    j: int,
    k: int,
)
    requires
        m.wf(),
        0 <= scroll,
        0 <= j < k < rows_cells(m, start, end, area, scroll, n).len(),
    ensures
        rows_cells(m, start, end, area, scroll, n)[j].0 < rows_cells(
            m,
            start,
            end,
            area,
            scroll,
            n,
        )[k].0,
    decreases n,
{
    let all = rows_cells(m, start, end, area, scroll, n);
    let before = rows_cells(m, start, end, area, scroll, n - 1);
    let own = row_cells(m, start, end, area, scroll, scroll + n - 1);
    if k < before.len() {
        lemma_cells_go_down(m, start, end, area, scroll, n - 1, j, k);
        assert(all[j] == before[j] && all[k] == before[k]);
    } else {
        assert(all[k] == own[k - before.len()]);
        lemma_cells_inside(m, start, end, area, scroll, n - 1, j);
        assert(all[j] == before[j]);
    }
}

/// Nothing but text is highlighted: every cell that is stands for a character of
/// the row it is on.
pub proof fn law_only_text_is_highlighted(
    m: PanelModel,
    anchor: TextPos,
    cursor: TextPos,
    area: Rect,
    scroll: int,
    j: int,
    c: int,
)
    requires
        m.wf(),
        m.wrap_width() > 0,
        0 <= scroll,
        0 <= j < selection_cells(m, anchor, cursor, area, scroll).len(),
        ({
            let cell = selection_cells(m, anchor, cursor, area, scroll)[j];
            cell.1 <= c < cell.2
        }),
    ensures
        ({
            let row = scroll + selection_cells(m, anchor, cursor, area, scroll)[j].0 - area.y;
            let i = m.line_at(row);
            let r = row - m.rows_before(i);
            &&& 0 <= row < m.total_rows()
            &&& area.x <= c
            &&& m.row_from(i, r) + (c - area.x) < m.row_to(i, r)
        }),
{
    let start = first_of(anchor, cursor);
    let end = last_of(anchor, cursor);
    let n = area.height as int;
    let cell = selection_cells(m, anchor, cursor, area, scroll)[j];
    let row = scroll + (cell.0 - area.y);
    lemma_row_of_cell(m, start, end, area, scroll, n, j);
    lemma_cells_inside(m, start, end, area, scroll, n, j);
    let i = m.line_at(row);
    let r = row - m.rows_before(i);
    lemma_row_line(m, row);
    lemma_row_bounds(m, i, r);
    lemma_row_start(m, i, r);
    if m.mode == WrapMode::Clip {
        assert(r * cell_width(m) == 0) by (nonlinear_arith)
            requires
                r == 0,
        ;
    }
}

/// In a panel without columns only the first cell of a row counts, and it is
/// highlighted exactly if the line's first character is selected.
pub proof fn law_no_columns_highlight_one_cell(
    m: PanelModel,
    anchor: TextPos,
    cursor: TextPos,
    area: Rect,
    scroll: int,
    k: int,
)
    requires
        m.wf(),
        m.wrap_width() == 0,
        area.width > 0,
        0 <= scroll,
        0 <= k < area.height,
        scroll + k < m.total_rows(),
        m.lines[m.line_at(scroll + k)].len() > 0,
    ensures
        covers(selection_cells(m, anchor, cursor, area, scroll), area.y + k, area.x as int)
            <==> lies_between(anchor, cursor, char_pos(m.line_at(scroll + k), 0)),
{
    let row = scroll + k;
    let i = m.line_at(row);
    let r = row - m.rows_before(i);
    let start = first_of(anchor, cursor);
    let end = last_of(anchor, cursor);
    let own = row_cells(m, start, end, area, scroll, row);
    let all = selection_cells(m, anchor, cursor, area, scroll);
    lemma_row_line(m, row);
    assert(r * cell_width(m) == 0) by (nonlinear_arith)
        requires
            r == 0,
    ;
    assert(lies_between(anchor, cursor, char_pos(i, 0)) <==> own.len() == 1 && own[0].1 <= area.x
        < own[0].2);
    if own.len() == 1 && own[0].1 <= area.x < own[0].2 {
        let j = lemma_cell_of_row(m, start, end, area, scroll, area.height as int, k);
        assert(all[j] == own[0]);
    }
    if covers(all, area.y + k, area.x as int) {
        let j = choose|j: int|
            0 <= j < all.len() && (#[trigger] all[j]).0 == area.y + k && all[j].1 <= area.x
                < all[j].2;
        lemma_row_of_cell(m, start, end, area, scroll, area.height as int, j);
    }
}

/// Exactly the positions that are given are left out of a copy, and none where none
/// are given.
pub proof fn law_only_what_is_given_is_excluded(set: &PosSet, pos: TextPos)
    ensures
        excluded(Some(set)).contains(pos) <==> set@.contains(pos),
        !excluded(None).contains(pos),
{
}

} // verus!
