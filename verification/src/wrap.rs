//! Character-exact line wrapping.
//!
//! A line is broken every `width` columns, without regard for words. These
//! functions serve both what a panel draws (the rows of one raw line) and how
//! it maps positions to rows, see [`crate::wrapcache`].

use vstd::prelude::*;

use crate::panel_model::{char_styles, repeated};
use crate::style::{
    lemma_raw_text, line_models, plain_style, raw_spans, row_text, Line, Span, SpanModel, Style,
};
use crate::text::{least, substring};

verus! {

// ---------------------------------------------------------------------------
// Model
// ---------------------------------------------------------------------------

/// A character with the style it is drawn in. Neighbours of equal style and
/// equal `tag` belong to one run.
pub struct Glyph {
    pub ch: char,
    pub style: Style,
    pub tag: int,
}

/// Whether two neighbours belong to one run.
pub open spec fn same_run(a: Glyph, b: Glyph) -> bool {
    a.style == b.style && a.tag == b.tag
}

/// The runs that `glyphs` falls into.
pub open spec fn group(glyphs: Seq<Glyph>) -> Seq<SpanModel>
    decreases glyphs.len(),
{
    if glyphs.len() == 0 {
        Seq::<SpanModel>::empty()
    } else {
        let before = group(glyphs.drop_last());
        let g = glyphs.last();
        if glyphs.len() > 1 && same_run(glyphs[glyphs.len() - 2], g) {
            before.drop_last().push(
                SpanModel { content: before.last().content.push(g.ch), style: g.style },
            )
        } else {
            before.push(SpanModel { content: seq![g.ch], style: g.style })
        }
    }
}

/// The glyph of one character.
pub open spec fn glyph(ch: char, style: Style, tag: int) -> Glyph {
    Glyph { ch, style, tag }
}

/// The characters of one span, all tagged with `tag`.
pub open spec fn span_glyphs(span: SpanModel, tag: int) -> Seq<Glyph> {
    span.content.map_values(|c: char| glyph(c, span.style, tag))
}

/// The characters of `spans`, each tagged with the number of its span.
pub open spec fn glyphs_of(spans: Seq<SpanModel>) -> Seq<Glyph>
    decreases spans.len(),
{
    if spans.len() == 0 {
        Seq::<Glyph>::empty()
    } else {
        glyphs_of(spans.drop_last()) + span_glyphs(spans.last(), spans.len() - 1)
    }
}

/// The number of rows that `len` characters take at `width` columns: at least
/// one, also for an empty line.
pub open spec fn row_count(len: int, width: int) -> int {
    if width == 0 || len == 0 {
        1
    } else if len % width == 0 {
        len / width
    } else {
        len / width + 1
    }
}

/// The glyphs of row `r`.
pub open spec fn row_glyphs(glyphs: Seq<Glyph>, width: int, r: int) -> Seq<Glyph> {
    glyphs.subrange(
        least(r * width, glyphs.len() as int),
        least((r + 1) * width, glyphs.len() as int),
    )
}

/// The rows of a line of `spans` wrapped to `width` columns. A width of zero
/// leaves the line as it is.
pub open spec fn wrapped(spans: Seq<SpanModel>, width: int) -> Seq<Seq<SpanModel>> {
    if width == 0 {
        seq![spans]
    } else {
        let glyphs = glyphs_of(spans);
        Seq::new(
            row_count(glyphs.len() as int, width) as nat,
            |r: int| group(row_glyphs(glyphs, width, r)),
        )
    }
}

/// The part of `s` that the rows from `skip` up to `skip + max` cover.
pub open spec fn window_text(s: Seq<char>, width: int, skip: int, max: int) -> Seq<char> {
    s.subrange(
        least(skip * width, s.len() as int),
        least((skip + max) * width, s.len() as int),
    )
}

/// At most `max` rows of the unstyled line `s` wrapped to `width` columns,
/// after leaving out the first `skip`.
pub open spec fn wrapped_window(s: Seq<char>, width: int, skip: int, max: int) -> Seq<
    Seq<SpanModel>,
> {
    if max == 0 || (width == 0 && skip > 0) {
        Seq::<Seq<SpanModel>>::empty()
    } else if width == 0 {
        seq![raw_spans(s)]
    } else if skip > 0 && window_text(s, width, skip, max).len() == 0 {
        Seq::<Seq<SpanModel>>::empty()
    } else {
        wrapped(raw_spans(window_text(s, width, skip, max)), width)
    }
}

// ---------------------------------------------------------------------------
// Rows under construction
// ---------------------------------------------------------------------------

/// A row that is built character by character.
pub(crate) struct RowBuilder {
    spans: Vec<Span>,
    piece: String,
    style: Style,
    glyphs: Ghost<Seq<Glyph>>,
}

impl RowBuilder {
    /// The characters put into the row so far.
    pub closed spec fn view(&self) -> Seq<Glyph> {
        self.glyphs@
    }

    /// Whether the pieces kept are the runs of the characters put in.
    pub closed spec fn wf(&self) -> bool {
        let done = Seq::new(self.spans@.len(), |i: int| self.spans@[i]@);
        &&& self@.len() == 0 ==> self.piece@.len() == 0 && self.spans@.len() == 0
        &&& self@.len() > 0 ==> {
            &&& self.piece@.len() > 0
            &&& self.style == self@.last().style
            &&& group(self@) == done.push(
                SpanModel { content: self.piece@, style: self.style },
            )
        }
    }

    /// An empty row.
    pub(crate) fn new() -> (r: Self)
        ensures
            r.wf(),
            r@ == Seq::<Glyph>::empty(),
    {
        RowBuilder {
            spans: Vec::new(),
            piece: String::new(),
            style: Style::default(),
            glyphs: Ghost(Seq::<Glyph>::empty()),
        }
    }

    /// Puts one more character into the row; `joined` says whether it belongs to
    /// the run of the character before it.
    pub(crate) fn push(&mut self, ch: char, style: Style, joined: bool, Ghost(tag): Ghost<int>)
        requires
            old(self).wf(),
            joined == (old(self)@.len() > 0 && same_run(
                old(self)@.last(),
                Glyph { ch, style, tag },
            )),
        ensures
            final(self).wf(),
            final(self)@ == old(self)@.push(Glyph { ch, style, tag }),
    {
        let ghost g = Glyph { ch, style, tag };
        let ghost before = self@;
        let ghost done = Seq::new(self.spans@.len(), |i: int| self.spans@[i]@);
        proof {
            assert(before.push(g).drop_last() =~= before);
            if before.len() > 0 {
                assert(before.push(g)[before.push(g).len() - 2] == before.last());
            }
        }
        if joined {
            self.piece.push(ch);
            self.glyphs = Ghost(before.push(g));
            proof {
                assert(group(before).drop_last() =~= done);
            }
        } else {
            let mut fresh = String::new();
            fresh.push(ch);
            if !self.piece.as_str().is_empty() {
                let mut full = String::new();
                std::mem::swap(&mut full, &mut self.piece);
                self.spans.push(Span::styled(full, self.style));
                proof {
                    assert(Seq::new(self.spans@.len(), |i: int| self.spans@[i]@) =~= group(before));
                }
            }
            self.piece = fresh;
            self.style = style;
            self.glyphs = Ghost(before.push(g));
            proof {
                assert(self.piece@ =~= seq![ch]);
                assert(Seq::new(self.spans@.len(), |i: int| self.spans@[i]@) =~= group(before));
            }
        }
    }

    /// Ends the row.
    pub(crate) fn finish(self) -> (r: Line)
        requires
            self.wf(),
        ensures
            r@ == group(self@),
    {
        let ghost all = self@;
        let RowBuilder { mut spans, piece, style, glyphs } = self;
        if !piece.as_str().is_empty() {
            spans.push(Span::styled(piece, style));
        }
        let r = Line { spans };
        assert(r@ =~= group(all));
        r
    }
}

// ---------------------------------------------------------------------------
// Lemmas
// ---------------------------------------------------------------------------

/// The glyphs of the first spans come first.
proof fn lemma_glyphs_prefix(spans: Seq<SpanModel>, i: int)
    requires
        0 <= i <= spans.len(),
    ensures
        glyphs_of(spans.take(i)).len() <= glyphs_of(spans).len(),
        glyphs_of(spans).take(glyphs_of(spans.take(i)).len() as int) == glyphs_of(spans.take(i)),
    decreases spans.len() - i,
{
    if i == spans.len() {
        assert(spans.take(i) =~= spans);
        assert(glyphs_of(spans).take(glyphs_of(spans).len() as int) =~= glyphs_of(spans));
    } else {
        lemma_glyphs_prefix(spans, i + 1);
        let more = glyphs_of(spans.take(i + 1));
        let less = glyphs_of(spans.take(i));
        assert(spans.take(i + 1).drop_last() =~= spans.take(i));
        assert(more.take(less.len() as int) =~= less);
        assert(glyphs_of(spans).take(less.len() as int) =~= more.take(less.len() as int));
    }
}

/// Where the characters of span `i` stand among the glyphs.
proof fn lemma_glyph_at(spans: Seq<SpanModel>, i: int, j: int)
    requires
        0 <= i < spans.len(),
        0 <= j < spans[i].content.len(),
    ensures
        glyphs_of(spans.take(i + 1)).len() == glyphs_of(spans.take(i)).len()
            + spans[i].content.len(),
        glyphs_of(spans.take(i)).len() + j < glyphs_of(spans).len(),
        glyphs_of(spans)[glyphs_of(spans.take(i)).len() + j] == (Glyph {
            ch: spans[i].content[j],
            style: spans[i].style,
            tag: i,
        }),
{
    lemma_glyphs_prefix(spans, i + 1);
    assert(spans.take(i + 1).drop_last() =~= spans.take(i));
    let more = glyphs_of(spans.take(i + 1));
    assert(spans.take(i + 1).last() == spans[i]);
    assert(span_glyphs(spans[i], i).len() == spans[i].content.len());
    let at = glyphs_of(spans.take(i)).len() + j;
    assert(glyphs_of(spans).take(more.len() as int)[at] == more[at]);
}

/// The number of rows of `full` full rows and one of `rest` characters.
pub proof fn lemma_row_count(full: int, rest: int, width: int)
    requires
        width > 0,
        full >= 0,
        0 <= rest <= width,
        full > 0 ==> rest > 0,
    ensures
        row_count(full * width + rest, width) == full + 1,
{
    let len = full * width + rest;
    if full == 0 {
        assert(full * width == 0) by (nonlinear_arith)
            requires
                full == 0,
        ;
        if 0 < rest < width {
            vstd::arithmetic::div_mod::lemma_fundamental_div_mod_converse(len, width, 0, rest);
        } else if rest == width {
            vstd::arithmetic::div_mod::lemma_fundamental_div_mod_converse(len, width, 1, 0);
        }
    } else {
        assert(full * width >= 0) by (nonlinear_arith)
            requires
                full >= 0,
                width > 0,
        ;
        assert(full * width == width * full) by (nonlinear_arith);
        if rest == width {
            assert((full + 1) * width == full * width + width) by (nonlinear_arith);
            assert((full + 1) * width == width * (full + 1)) by (nonlinear_arith);
            vstd::arithmetic::div_mod::lemma_fundamental_div_mod_converse(
                len,
                width,
                full + 1,
                0,
            );
        } else {
            vstd::arithmetic::div_mod::lemma_fundamental_div_mod_converse(
                len,
                width,
                full,
                rest,
            );
        }
    }
}

// ---------------------------------------------------------------------------
// Wrapping
// ---------------------------------------------------------------------------

/// Wraps a line of styled runs to `width` columns, breaking exactly between two
/// characters and keeping each run's style across the break. A width of zero
/// gives the line back unchanged.
pub fn wrap_line(line: Line, width: usize) -> (r: Vec<Line>)
    ensures
        line_models(r@) == wrapped(line@, width as int),
{
    if width == 0 {
        let mut whole: Vec<Line> = Vec::new();
        whole.push(line);
        assert(line_models(whole@) =~= seq![line@]);
        return whole;
    }
    let ghost spans = line@;
    let ghost all = glyphs_of(spans);
    let mut out: Vec<Line> = Vec::new();
    let mut row = RowBuilder::new();
    let mut row_width: usize = 0;
    let mut i: usize = 0;
    proof {
        assert(spans.take(0) =~= Seq::<SpanModel>::empty());
        assert(all.subrange(0, 0) =~= Seq::<Glyph>::empty());
    }
    while i < line.spans.len()
        invariant
            width > 0,
            spans == line@,
            all == glyphs_of(spans),
            i <= line.spans.len(),
            row.wf(),
            row_width <= width,
            out@.len() > 0 ==> row_width > 0,
            out@.len() * width + row_width == glyphs_of(spans.take(i as int)).len(),
            out@.len() * width + row_width <= all.len(),
            row@ == all.subrange(out@.len() * width, out@.len() * width + row_width),
            forall|k: int|
                0 <= k < out@.len() ==> (#[trigger] out@[k])@ == group(
                    row_glyphs(all, width as int, k),
                ),
        decreases line.spans.len() - i,
    {
        let style = line.spans[i].style;
        let text: &str = line.spans[i].content.as_str();
        let ghost base = glyphs_of(spans.take(i as int)).len() as int;
        let mut first: bool = true;
        assert(spans[i as int].content == text@);
        for c in it: text.chars()
            invariant
                width > 0,
                spans == line@,
                all == glyphs_of(spans),
                i < line.spans.len(),
                it.seq() == text@,
                spans[i as int].content == text@,
                spans[i as int].style == style,
                base == glyphs_of(spans.take(i as int)).len(),
                first == (it.index() == 0),
                row.wf(),
                row_width <= width,
                out@.len() > 0 ==> row_width > 0,
                out@.len() * width + row_width == base + it.index(),
                out@.len() * width + row_width <= all.len(),
                row@ == all.subrange(out@.len() * width, out@.len() * width + row_width),
                forall|k: int|
                    0 <= k < out@.len() ==> (#[trigger] out@[k])@ == group(
                        row_glyphs(all, width as int, k),
                    ),
        {
            let ghost j = it.index() as int;
            let ghost n = out@.len() as int;
            proof {
                lemma_glyph_at(spans, i as int, j);
                if j > 0 {
                    lemma_glyph_at(spans, i as int, j - 1);
                } else if base > 0 {
                    lemma_glyphs_prefix(spans, i as int);
                    lemma_tags(spans.take(i as int));
                    assert(all.take(base)[base - 1] == all[base - 1]);
                }
                assert((n + 1) * width == n * width + width) by (nonlinear_arith);
                assert(n * width >= 0) by (nonlinear_arith)
                    requires
                        n >= 0,
                        width > 0,
                ;
            }
            if row_width == width {
                let mut full = RowBuilder::new();
                std::mem::swap(&mut full, &mut row);
                out.push(full.finish());
                row_width = 0;
                proof {
                    assert(row_glyphs(all, width as int, n) =~= all.subrange(
                        n * width,
                        n * width + width,
                    ));
                    assert(row@ =~= all.subrange((n + 1) * width, (n + 1) * width));
                }
            }
            let ghost m = out@.len() as int;
            let joined: bool = row_width > 0 && !first;
            row.push(c, style, joined, Ghost(i as int));
            row_width = row_width + 1;
            first = false;
            proof {
                assert(row@ =~= all.subrange(m * width, m * width + row_width));
            }
        }
        proof {
            assert(spans.take(i + 1).drop_last() =~= spans.take(i as int));
            assert(span_glyphs(spans[i as int], i as int).len() == text@.len());
        }
        i = i + 1;
    }
    proof {
        assert(spans.take(spans.len() as int) =~= spans);
        let n = out@.len() as int;
        assert((n + 1) * width == n * width + width) by (nonlinear_arith);
        assert(n * width >= 0) by (nonlinear_arith)
            requires
                n >= 0,
                width > 0,
        ;
        lemma_row_count(n, row_width as int, width as int);
        assert(row_glyphs(all, width as int, n) =~= row@);
    }
    out.push(row.finish());
    assert(line_models(out@) =~= wrapped(spans, width as int));
    out
}

/// Tags are span numbers.
proof fn lemma_tags(spans: Seq<SpanModel>)
    ensures
        forall|k: int|
            0 <= k < glyphs_of(spans).len() ==> 0 <= (#[trigger] glyphs_of(spans)[k]).tag
                < spans.len(),
    decreases spans.len(),
{
    if spans.len() > 0 {
        lemma_tags(spans.drop_last());
        let before = glyphs_of(spans.drop_last());
        assert forall|k: int| 0 <= k < glyphs_of(spans).len() implies 0 <= (
        #[trigger] glyphs_of(spans)[k]).tag < spans.len() by {
            if k < before.len() {
                assert(glyphs_of(spans)[k] == before[k]);
            } else {
                assert(glyphs_of(spans)[k] == span_glyphs(spans.last(), spans.len() - 1)[k
                    - before.len()]);
            }
        }
    }
}

/// Wraps only a window of the unstyled line `text`: leaves out `skip_rows` whole
/// rows, then gives at most `max_rows` more. Only the characters up to the end
/// of the window are looked at, however long the line is.
pub fn wrap_line_window(text: &str, width: usize, skip_rows: usize, max_rows: usize) -> (r: Vec<
    Line,
>)
    ensures
        line_models(r@) == wrapped_window(
            text@,
            width as int,
            skip_rows as int,
            max_rows as int,
        ),
{
    if max_rows == 0 || (width == 0 && skip_rows > 0) {
        let none: Vec<Line> = Vec::new();
        assert(line_models(none@) =~= Seq::<Seq<SpanModel>>::empty());
        return none;
    }
    if width == 0 {
        let mut whole: Vec<Line> = Vec::new();
        whole.push(Line::raw(text));
        assert(line_models(whole@) =~= seq![raw_spans(text@)]);
        return whole;
    }
    let from: usize = cell_count(text, skip_rows, width);
    let more: usize = cell_count(text, max_rows, width);
    let to: usize = match from.checked_add(more) {
        Some(n) => n,
        None => text.unicode_len(),
    };
    proof {
        assert((skip_rows + max_rows) * width == skip_rows * width + max_rows * width)
            by (nonlinear_arith);
        assert(skip_rows * width >= 0) by (nonlinear_arith);
        assert(max_rows * width >= 0) by (nonlinear_arith);
    }
    let (from, to): (usize, usize) = if from <= to {
        (from, to)
    } else {
        (to, to)
    };
    let windowed = substring(text, from, to);
    assert(windowed@ == window_text(text@, width as int, skip_rows as int, max_rows as int));
    if skip_rows > 0 && windowed.as_str().is_empty() {
        let none: Vec<Line> = Vec::new();
        assert(line_models(none@) =~= Seq::<Seq<SpanModel>>::empty());
        return none;
    }
    wrap_line(Line::raw(windowed.as_str()), width)
}

/// The number of characters in `rows` rows, or that of `text` where it is too
/// large a number.
fn cell_count(text: &str, rows: usize, width: usize) -> (r: usize)
    ensures
        least(r as int, text@.len() as int) == least(rows * width, text@.len() as int),
        r == rows * width || r == text@.len(),
{
    match rows.checked_mul(width) {
        Some(n) => n,
        None => text.unicode_len(),
    }
}

/// The number of rows that a line of `char_len` characters takes at `width`
/// columns, as many as [`wrap_line`] produces: at least one, also for an empty
/// line.
pub fn wrapped_row_count(char_len: usize, width: usize) -> (r: usize)
    ensures
        r == row_count(char_len as int, width as int),
        r >= 1,
{
    if width == 0 || char_len == 0 {
        1
    } else {
        let full: usize = char_len / width;
        proof {
            vstd::arithmetic::div_mod::lemma_fundamental_div_mod(
                char_len as int,
                width as int,
            );
            assert(full <= char_len) by (nonlinear_arith)
                requires
                    char_len == width * full + char_len % width,
                    width > 0,
                    char_len % width >= 0,
                    full >= 0,
            ;
        }
        if char_len % width == 0 {
            proof {
                assert(full >= 1) by (nonlinear_arith)
                    requires
                        char_len == width * full + 0,
                        char_len > 0,
                        full >= 0,
                ;
            }
            full
        } else {
            proof {
                assert(full < char_len) by (nonlinear_arith)
                    requires
                        char_len == width * full + char_len % width,
                        width > 0,
                        char_len % width > 0,
                        full >= 0,
                ;
            }
            full + 1
        }
    }
}

// ---------------------------------------------------------------------------
// Laws
// ---------------------------------------------------------------------------

/// The characters of glyphs.
pub open spec fn glyph_chars(glyphs: Seq<Glyph>) -> Seq<char> {
    glyphs.map_values(|g: Glyph| g.ch)
}

/// The styles of glyphs.
pub open spec fn glyph_styles(glyphs: Seq<Glyph>) -> Seq<Style> {
    glyphs.map_values(|g: Glyph| g.style)
}

/// Runs hold the characters that they were made of, in the same styles, and none
/// of them is empty.
pub proof fn lemma_group(glyphs: Seq<Glyph>)
    ensures
        row_text(group(glyphs)) == glyph_chars(glyphs),
        char_styles(group(glyphs)) == glyph_styles(glyphs),
        glyphs.len() > 0 ==> group(glyphs).len() > 0 && group(glyphs).last().style
            == glyphs.last().style,
    decreases glyphs.len(),
{
    if glyphs.len() == 0 {
        assert(glyph_chars(glyphs) =~= Seq::<char>::empty());
        assert(glyph_styles(glyphs) =~= Seq::<Style>::empty());
    } else {
        let less = glyphs.drop_last();
        let g = glyphs.last();
        lemma_group(less);
        let before = group(less);
        assert(glyph_chars(glyphs) =~= glyph_chars(less).push(g.ch));
        assert(glyph_styles(glyphs) =~= glyph_styles(less).push(g.style));
        let all = group(glyphs);
        if glyphs.len() > 1 && same_run(glyphs[glyphs.len() - 2], g) {
            let last = before.last();
            assert(less.last() == glyphs[glyphs.len() - 2]);
            assert(all.drop_last() =~= before.drop_last());
            assert(row_text(all) =~= row_text(before).push(g.ch));
            assert(repeated(g.style, last.content.push(g.ch).len()) =~= repeated(
                last.style,
                last.content.len(),
            ).push(g.style));
            assert(char_styles(all) =~= char_styles(before).push(g.style));
        } else {
            assert(all.drop_last() =~= before);
            assert(row_text(all) =~= row_text(before).push(g.ch));
            assert(repeated(g.style, 1) =~= seq![g.style]);
            assert(char_styles(all) =~= char_styles(before).push(g.style));
        }
    }
}

/// The glyphs of spans hold their characters in their styles.
proof fn lemma_glyphs_text(spans: Seq<SpanModel>)
    ensures
        glyph_chars(glyphs_of(spans)) == row_text(spans),
        glyph_styles(glyphs_of(spans)) == char_styles(spans),
    decreases spans.len(),
{
    if spans.len() == 0 {
        assert(glyph_chars(glyphs_of(spans)) =~= Seq::<char>::empty());
        assert(glyph_styles(glyphs_of(spans)) =~= Seq::<Style>::empty());
    } else {
        let less = spans.drop_last();
        let last = spans.last();
        lemma_glyphs_text(less);
        let own = span_glyphs(last, spans.len() - 1);
        assert(own.len() == last.content.len());
        assert(glyph_chars(own) =~= last.content);
        assert(glyph_styles(own) =~= repeated(last.style, last.content.len()));
        assert(glyph_chars(glyphs_of(spans)) =~= glyph_chars(glyphs_of(less)) + glyph_chars(own));
        assert(glyph_styles(glyphs_of(spans)) =~= glyph_styles(glyphs_of(less)) + glyph_styles(
            own,
        ));
    }
}

/// Wrapping loses nothing and changes no style: row by row, it holds the line's
/// characters in their styles, `width` of them on every row but the last.
pub proof fn law_wrapping_keeps_text(spans: Seq<SpanModel>, width: int, r: int)
    requires
        width > 0,
        0 <= r < wrapped(spans, width).len(),
    ensures
        wrapped(spans, width).len() == row_count(row_text(spans).len() as int, width),
        row_text(wrapped(spans, width)[r]) == row_text(spans).subrange(
            r * width,
            least((r + 1) * width, row_text(spans).len() as int),
        ),
        char_styles(wrapped(spans, width)[r]) == char_styles(spans).subrange(
            r * width,
            least((r + 1) * width, row_text(spans).len() as int),
        ),
        r < wrapped(spans, width).len() - 1 ==> row_text(wrapped(spans, width)[r]).len() == width,
{
    let glyphs = glyphs_of(spans);
    let len = glyphs.len() as int;
    let n = row_count(len, width);
    lemma_glyphs_text(spans);
    assert(row_text(spans).len() == len);
    lemma_last_row(len, width);
    let row = row_glyphs(glyphs, width, r);
    lemma_group(row);
    assert((r + 1) * width == r * width + width) by (nonlinear_arith);
    assert(0 <= r * width) by (nonlinear_arith)
        requires
            0 <= r,
            0 < width,
    ;
    if len > 0 {
        assert(r * width <= (n - 1) * width) by (nonlinear_arith)
            requires
                r <= n - 1,
                0 < width,
        ;
        if r < n - 1 {
            assert((r + 1) * width <= (n - 1) * width) by (nonlinear_arith)
                requires
                    r + 1 <= n - 1,
                    0 < width,
            ;
        }
    } else {
        assert(r * width == 0) by (nonlinear_arith)
            requires
                r == 0,
        ;
    }
    let to = least((r + 1) * width, len);
    assert(glyph_chars(row) =~= row_text(spans).subrange(r * width, to));
    assert(glyph_styles(row) =~= char_styles(spans).subrange(r * width, to));
}

/// The last row of a line reaches its end, and the one before does not.
pub proof fn lemma_last_row(len: int, w: int)
    requires
        w > 0,
        len >= 0,
    ensures
        len <= row_count(len, w) * w,
        len > 0 ==> (row_count(len, w) - 1) * w < len,
        row_count(len, w) >= 1,
{
    if len > 0 {
        vstd::arithmetic::div_mod::lemma_fundamental_div_mod(len, w);
        vstd::arithmetic::div_mod::lemma_mod_bound(len, w);
        let q = len / w;
        let rest = len % w;
        assert(q * w == w * q) by (nonlinear_arith);
        assert((q + 1) * w == q * w + w) by (nonlinear_arith);
        assert((q - 1) * w == q * w - w) by (nonlinear_arith);
        assert(q >= 0) by (nonlinear_arith)
            requires
                len == w * q + rest,
                len > 0,
                0 <= rest < w,
        ;
        if rest == 0 {
            assert(q >= 1) by (nonlinear_arith)
                requires
                    len == w * q,
                    len > 0,
                    w > 0,
            ;
        }
    } else {
        assert(1 * w == w);
    }
}

/// The glyphs of an unstyled line.
pub proof fn lemma_raw_glyphs(s: Seq<char>)
    requires
        forall|j: int| 0 <= j < s.len() ==> #[trigger] s[j] != '\n',
    ensures
        glyphs_of(raw_spans(s)) == s.map_values(|c: char| glyph(c, plain_style(), 0)),
{
    lemma_raw_text(s);
    let spans = raw_spans(s);
    if s.len() > 0 {
        assert(spans.drop_last() =~= Seq::<SpanModel>::empty());
        assert(glyphs_of(spans.drop_last()) =~= Seq::<Glyph>::empty());
        assert(spans.last() == SpanModel { content: s, style: plain_style() });
    }
    assert(glyphs_of(spans) =~= s.map_values(|c: char| glyph(c, plain_style(), 0)));
}

/// The rows of the part of a line that starts at a row's start.
proof fn lemma_rows_of_part(len: int, w: int, skip: int, max: int)
    requires
        w > 0,
        skip >= 0,
        max > 0,
        skip * w < len,
    ensures
        row_count(least((skip + max) * w, len) - skip * w, w) == least(
            skip + max,
            row_count(len, w),
        ) - skip,
        skip < row_count(len, w),
{
    let n = row_count(len, w);
    lemma_last_row(len, w);
    assert(skip * w >= 0) by (nonlinear_arith)
        requires
            skip >= 0,
            w > 0,
    ;
    assert(skip < n) by (nonlinear_arith)
        requires
            skip * w < len,
            len <= n * w,
            w > 0,
    ;
    assert((skip + max) * w == skip * w + max * w) by (nonlinear_arith);
    assert((max - 1) * w == max * w - w) by (nonlinear_arith);
    assert((n - 1 - skip) * w == (n - 1) * w - skip * w) by (nonlinear_arith);
    assert((n - skip) * w == n * w - skip * w) by (nonlinear_arith);
    assert((n - skip) * w == (n - 1 - skip) * w + w) by (nonlinear_arith);
    if (skip + max) * w <= len {
        assert(skip + max <= n) by (nonlinear_arith)
            requires
                (skip + max) * w <= len,
                len <= n * w,
                w > 0,
        ;
        lemma_row_count(max - 1, w, w);
    } else {
        assert(n <= skip + max) by (nonlinear_arith)
            requires
                (n - 1) * w < len,
                len < (skip + max) * w,
                w > 0,
        ;
        let rest = len - skip * w - (n - 1 - skip) * w;
        lemma_row_count(n - 1 - skip, rest, w);
    }
}

/// Wrapping a window of a line gives exactly those rows that wrapping the whole
/// line would, so a panel can show any part of a line without wrapping the rest.
pub proof fn law_window_is_part_of_wrapping(s: Seq<char>, width: int, skip: int, max: int)
    requires
        width >= 0,
        skip >= 0,
        max >= 0,
        forall|j: int| 0 <= j < s.len() ==> #[trigger] s[j] != '\n',
    ensures
        wrapped_window(s, width, skip, max) == ({
            let rows = wrapped(raw_spans(s), width);
            rows.subrange(
                least(skip, rows.len() as int),
                least(skip + max, rows.len() as int),
            )
        }),
{
    let rows = wrapped(raw_spans(s), width);
    let from = least(skip, rows.len() as int);
    let to = least(skip + max, rows.len() as int);
    let part = rows.subrange(from, to);
    let window = wrapped_window(s, width, skip, max);
    let len = s.len() as int;
    if width == 0 || max == 0 {
        assert(window =~= part);
    } else {
        let t = window_text(s, width, skip, max);
        lemma_raw_glyphs(s);
        let glyphs = glyphs_of(raw_spans(s));
        assert(glyphs.len() == len);
        assert(skip * width >= 0) by (nonlinear_arith)
            requires
                skip >= 0,
                width > 0,
        ;
        assert((skip + max) * width == skip * width + max * width) by (nonlinear_arith);
        assert(max * width >= width) by (nonlinear_arith)
            requires
                max >= 1,
                width > 0,
        ;
        if skip * width < len {
            lemma_rows_of_part(len, width, skip, max);
            let end = least((skip + max) * width, len);
            assert forall|j: int| 0 <= j < t.len() implies #[trigger] t[j] != '\n' by {
                assert(t[j] == s[skip * width + j]);
            }
            lemma_raw_glyphs(t);
            let own = glyphs_of(raw_spans(t));
            assert(own.len() == t.len());
            assert(own =~= glyphs.subrange(skip * width, end));
            assert forall|r: int| 0 <= r < part.len() implies #[trigger] window[r] == part[r] by {
                assert((skip + r) * width == skip * width + r * width) by (nonlinear_arith);
                assert((skip + r + 1) * width == skip * width + (r + 1) * width)
                    by (nonlinear_arith);
                assert((r + 1) * width == r * width + width) by (nonlinear_arith);
                assert((r + 1) * width <= max * width) by (nonlinear_arith)
                    requires
                        r + 1 <= max,
                        width > 0,
                ;
                assert(r * width >= 0) by (nonlinear_arith)
                    requires
                        r >= 0,
                        width > 0,
                ;
                assert(row_glyphs(own, width, r) =~= row_glyphs(glyphs, width, skip + r));
                assert(part[r] == rows[skip + r]);
            }
            assert(window =~= part);
        } else {
            // The window is past the line, or the line is empty.
            lemma_last_row(len, width);
            assert(t =~= Seq::<char>::empty());
            if skip == 0 {
                assert(skip * width == 0) by (nonlinear_arith)
                    requires
                        skip == 0,
                ;
                assert(s =~= t);
                assert(window =~= part);
            } else {
                let n = row_count(len, width);
                if len > 0 {
                    assert(n <= skip) by (nonlinear_arith)
                        requires
                            (n - 1) * width < len,
                            len <= skip * width,
                            width > 0,
                    ;
                }
                assert(window =~= part);
            }
        }
    }
}

/// Where a run begins and ends: it is not empty, all of its glyphs belong to one
/// run, and the glyphs on either side of it do not.
pub proof fn lemma_run_bounds(glyphs: Seq<Glyph>, k: int)
    requires
        0 <= k < group(glyphs).len(),
    ensures
        ({
            let from = row_text(group(glyphs).take(k)).len() as int;
            let to = from + group(glyphs)[k].content.len();
            &&& from < to <= glyphs.len()
            &&& to == glyphs.len() <==> k + 1 == group(glyphs).len()
            &&& group(glyphs)[k].style == glyphs[from].style
            &&& forall|j: int| from < j < to ==> same_run(#[trigger] glyphs[j - 1], glyphs[j])
            &&& from > 0 ==> !same_run(glyphs[from - 1], glyphs[from])
            &&& to < glyphs.len() ==> !same_run(glyphs[to - 1], glyphs[to])
        }),
    decreases glyphs.len(),
{
    let less = glyphs.drop_last();
    let g = glyphs.last();
    let before = group(less);
    let all = group(glyphs);
    lemma_group(less);
    assert(glyph_chars(less).len() == less.len());
    if glyphs.len() > 1 && same_run(glyphs[glyphs.len() - 2], g) {
        assert(all.take(k) =~= before.take(k));
        lemma_run_bounds(less, k);
        let from = row_text(all.take(k)).len() as int;
        let to = from + all[k].content.len();
        assert forall|j: int| from < j < to implies same_run(
            #[trigger] glyphs[j - 1],
            glyphs[j],
        ) by {
            if j < less.len() {
                assert(same_run(less[j - 1], less[j]));
            }
        }
    } else if k < before.len() {
        assert(all.take(k) =~= before.take(k));
        lemma_run_bounds(less, k);
        let from = row_text(all.take(k)).len() as int;
        let to = from + all[k].content.len();
        assert forall|j: int| from < j < to implies same_run(
            #[trigger] glyphs[j - 1],
            glyphs[j],
        ) by {
            assert(same_run(less[j - 1], less[j]));
        }
    } else {
        assert(all.take(k) =~= before);
    }
}

/// A span of a wrapped row is what one span of the line has on that row: it begins
/// where that span does or the row does, and ends where that span does or the row
/// does.
pub proof fn law_wrapped_spans_are_parts_of_spans(
    spans: Seq<SpanModel>,
    width: int,
    r: int,
    k: int,
) -> (i: int)
    requires
        width > 0,
        0 <= r < wrapped(spans, width).len(),
        0 <= k < wrapped(spans, width)[r].len(),
    ensures
        ({
            let row = wrapped(spans, width)[r];
            let from = r * width + row_text(row.take(k)).len();
            let to = from + row[k].content.len();
            let start = row_text(spans.take(i)).len();
            let end = row_text(spans.take(i + 1)).len();
            &&& 0 <= i < spans.len()
            &&& row[k].style == spans[i].style
            &&& start <= from < to <= end
            &&& from == start || from == r * width
            &&& to == end || to == r * width + row_text(row).len()
        }),
{
    let glyphs = glyphs_of(spans);
    let len = glyphs.len() as int;
    let part = row_glyphs(glyphs, width, r);
    let row = wrapped(spans, width)[r];
    lemma_glyphs_text(spans);
    law_wrapping_keeps_text(spans, width, r);
    lemma_group(part);
    lemma_run_bounds(part, k);
    assert(glyph_chars(part).len() == part.len());
    assert(glyph_chars(glyphs).len() == len);
    let base = r * width;
    let from = base + row_text(row.take(k)).len();
    let to = from + row[k].content.len();
    assert(part.len() == row_text(row).len());
    assert(0 <= base) by (nonlinear_arith)
        requires
            base == r * width,
            0 <= r,
            0 < width,
    ;
    assert((r + 1) * width == base + width) by (nonlinear_arith)
        requires
            base == r * width,
    ;
    assert(part.len() > 0);
    assert(base <= len && part.len() == least((r + 1) * width, len) - base);
    assert forall|j: int| 0 <= j < part.len() implies #[trigger] part[j] == glyphs[base + j] by {}
    lemma_tags(spans);
    let i = glyphs[from].tag;
    lemma_same_tag(part, from - base, to - base);
    lemma_span_of_tag(spans, from);
    lemma_span_of_tag(spans, to - 1);
    assert(part[from - base].tag == part[to - 1 - base].tag);
    if from > base {
        lemma_span_of_tag(spans, from - 1);
        assert(!same_run(part[from - base - 1], part[from - base]));
        if from > row_text(spans.take(i)).len() {
            lemma_tag_of_span(spans, i, from - 1);
        }
    }
    if to < base + part.len() {
        assert(!same_run(part[to - base - 1], part[to - base]));
        if to < row_text(spans.take(i + 1)).len() {
            lemma_tag_of_span(spans, i, to);
        }
    }
    i
}

/// Glyphs of one run have one tag.
proof fn lemma_same_tag(glyphs: Seq<Glyph>, from: int, to: int)
    requires
        0 <= from < to <= glyphs.len(),
        forall|j: int| from < j < to ==> same_run(#[trigger] glyphs[j - 1], glyphs[j]),
    ensures
        glyphs[from].tag == glyphs[to - 1].tag,
    decreases to - from,
{
    if to - from > 1 {
        lemma_same_tag(glyphs, from, to - 1);
        assert(same_run(glyphs[to - 1 - 1], glyphs[to - 1]));
    }
}

/// A glyph stands within the span that it is tagged with, and has its style.
proof fn lemma_span_of_tag(spans: Seq<SpanModel>, c: int)
    requires
        0 <= c < glyphs_of(spans).len(),
    ensures
        ({
            let g = glyphs_of(spans)[c];
            &&& 0 <= g.tag < spans.len()
            &&& row_text(spans.take(g.tag)).len() <= c < row_text(spans.take(g.tag + 1)).len()
            &&& g.style == spans[g.tag].style
        }),
    decreases spans.len(),
{
    let less = spans.drop_last();
    let before = glyphs_of(less);
    let own = span_glyphs(spans.last(), spans.len() - 1);
    lemma_glyphs_text(less);
    lemma_glyphs_text(spans);
    assert(glyph_chars(before).len() == before.len());
    assert(glyph_chars(glyphs_of(spans)).len() == glyphs_of(spans).len());
    if c < before.len() {
        lemma_span_of_tag(less, c);
        let tag = before[c].tag;
        assert(glyphs_of(spans)[c] == before[c]);
        assert(spans.take(tag) =~= less.take(tag));
        assert(spans.take(tag + 1) =~= less.take(tag + 1));
    } else {
        assert(glyphs_of(spans)[c] == own[c - before.len()]);
        assert(spans.take(spans.len() - 1) =~= less);
        assert(spans.take(spans.len() as int) =~= spans);
    }
}

/// A glyph that stands within a span is tagged with it.
proof fn lemma_tag_of_span(spans: Seq<SpanModel>, i: int, c: int)
    requires
        0 <= i < spans.len(),
        row_text(spans.take(i)).len() <= c < row_text(spans.take(i + 1)).len(),
    ensures
        c < glyphs_of(spans).len(),
        glyphs_of(spans)[c].tag == i,
        glyphs_of(spans)[c].style == spans[i].style,
{
    let j = c - row_text(spans.take(i)).len();
    lemma_glyphs_text(spans.take(i));
    assert(glyph_chars(glyphs_of(spans.take(i))).len() == glyphs_of(spans.take(i)).len());
    assert(spans.take(i + 1).drop_last() =~= spans.take(i));
    assert(spans.take(i + 1).last() == spans[i]);
    lemma_glyph_at(spans, i, j);
}

/// So many characters take as few rows as have room for them, and one where there
/// are none; without a width all are on one row.
pub proof fn law_rows_are_as_few_as_can_be(len: int, width: int)
    requires
        len >= 0,
        width >= 0,
    ensures
        width > 0 ==> len <= row_count(len, width) * width,
        width > 0 && len > 0 ==> (row_count(len, width) - 1) * width < len,
        width == 0 || len == 0 ==> row_count(len, width) == 1,
{
    if width > 0 {
        lemma_last_row(len, width);
    }
}

/// Without a width a line stays as it is.
pub proof fn law_no_width_keeps_line(spans: Seq<SpanModel>)
    ensures
        wrapped(spans, 0).len() == 1,
        wrapped(spans, 0)[0] == spans,
{
}

} // verus!
