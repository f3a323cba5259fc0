//! Texts with terminal escape sequences.
//!
//! The sequences are read by the `ansi_to_tui` crate, which turns a text into
//! styled lines. This module carries them over into the crate's own [`Line`]s.

use ansi_to_tui::IntoText;
use ratatui::style::Color as TermColor;
use ratatui::style::Color::{
    Black as TermBlack, Blue as TermBlue, Cyan as TermCyan, DarkGray as TermDarkGray,
    Gray as TermGray, Green as TermGreen, Indexed as TermIndexed, LightBlue as TermLightBlue,
    LightCyan as TermLightCyan, LightGreen as TermLightGreen, LightMagenta as TermLightMagenta,
    LightRed as TermLightRed, LightYellow as TermLightYellow, Magenta as TermMagenta,
    Red as TermRed, Reset as TermReset, Rgb as TermRgb, White as TermWhite, Yellow as TermYellow,
};
use ratatui::text::Text;
use vstd::prelude::*;

use crate::panel_model::row_texts;
use crate::style::{
    lemma_raw_text, line_models, plain_style, raw_spans, row_text, Line, Span, SpanModel, Style,
};
use crate::style::Color::{
    Black, Blue, Cyan, DarkGray, Gray, Green, Indexed, LightBlue, LightCyan, LightGreen,
    LightMagenta, LightRed, LightYellow, Magenta, Red, Reset, Rgb, White, Yellow,
};
use crate::text::{
    ended_len, lemma_lines_hold_no_newline, lemma_str_lines_len, str_line_strings, str_lines,
    texts,
};

verus! {

// ---------------------------------------------------------------------------
// The outside crates
// ---------------------------------------------------------------------------

/// `ratatui`'s text: lines of styled spans.
#[verifier::external_type_specification]
#[verifier::external_body]
pub struct ExText<'a>(Text<'a>);

/// The spans of each line of a text. A span's style is its line's style with
/// its own laid over it.
pub uninterp spec fn text_lines(text: Text<'static>) -> Seq<Seq<SpanModel>>;

/// The styled lines that `ansi_to_tui` reads from a text with escape sequences;
/// none where it cannot read the text.
pub uninterp spec fn ansi_parse(raw: Seq<char>) -> Option<Seq<Seq<SpanModel>>>;

/// `ansi_to_tui::IntoText::into_text` on a text: the lines it reads are
/// determined by the text. Reading only takes escape sequences and line feeds
/// away, so the lines hold no more than the text does, a line feed for each of
/// them included, which the last may lack.
#[verifier::external_body]
fn ansi_text(raw: &str) -> (r: Option<Text<'static>>)
    ensures
        r is Some == ansi_parse(raw@) is Some,
        r matches Some(text) ==> ansi_parse(raw@) == Some(text_lines(text)) && ended_len(
            row_texts(text_lines(text)),
        ) <= raw@.len() + 1,
{
    raw.into_text().ok()
}

/// The contents of a `ratatui` text's spans, line by line, from the public
/// fields `Text::lines`, `Line::spans` and `Span::content`.
#[verifier::external_body]
fn span_texts(text: &Text<'static>) -> (r: Vec<Vec<String>>)
    ensures
        r@.len() == text_lines(*text).len(),
        forall|i: int|
            #![trigger r@[i]]
            0 <= i < r@.len() ==> texts(r@[i]@) == Seq::new(
                text_lines(*text)[i].len(),
                |j: int| text_lines(*text)[i][j].content,
            ),
{
    let spans = text.lines.iter().map(|line| line.spans.iter());
    spans.map(|all| all.map(|span| span.content.to_string()).collect()).collect()
}

/// `ratatui::style::Style::patch` on the style of line `i` and that of its span
/// `j`: the style the span is drawn in. Colours keep their names and modifiers
/// their bits.
#[verifier::external_body]
fn span_style(text: &Text<'static>, i: usize, j: usize) -> (r: Style)
    requires
        i < text_lines(*text).len(),
        j < text_lines(*text)[i as int].len(),
    ensures
        r == text_lines(*text)[i as int][j as int].style,
{
    let line = &text.lines[i];
    let drawn = line.style.patch(line.spans[j].style);
    let color = |c: TermColor| match c {
        TermReset => Reset, TermBlack => Black, TermRed => Red, TermGreen => Green,
        TermYellow => Yellow, TermBlue => Blue, TermMagenta => Magenta, TermCyan => Cyan,
        TermGray => Gray, TermDarkGray => DarkGray, TermLightRed => LightRed,
        TermLightGreen => LightGreen, TermLightYellow => LightYellow, TermLightBlue => LightBlue,
        TermLightMagenta => LightMagenta, TermLightCyan => LightCyan, TermWhite => White,
        TermRgb(r, g, b) => Rgb(r, g, b), TermIndexed(n) => Indexed(n),
    };
    Style {
        fg: drawn.fg.map(color), bg: drawn.bg.map(color),
        underline_color: drawn.underline_color.map(color),
        add_modifier: drawn.add_modifier.bits(), sub_modifier: drawn.sub_modifier.bits(),
    }
}

// ---------------------------------------------------------------------------
// Reading
// ---------------------------------------------------------------------------

/// The lines of a text that is shown as it is: one unstyled line for each.
pub open spec fn unread_lines(raw: Seq<char>) -> Seq<Seq<SpanModel>> {
    Seq::new(str_lines(raw).len(), |i: int| raw_spans(str_lines(raw)[i]))
}

/// The styled lines of a text with escape sequences; the text as it is where
/// they cannot be read.
pub open spec fn ansi_lines(raw: Seq<char>) -> Seq<Seq<SpanModel>> {
    match ansi_parse(raw) {
        Some(rows) => rows,
        None => unread_lines(raw),
    }
}

/// Reads the styled lines of a text with escape sequences, or takes the text as
/// it is where they cannot be read.
pub fn read_ansi(raw: &str) -> (r: Vec<Line>)
    ensures
        line_models(r@) == ansi_lines(raw@),
        ended_len(row_texts(line_models(r@))) <= raw@.len() + 1,
{
    match ansi_text(raw) {
        Some(text) => {
            let contents = span_texts(&text);
            let ghost rows = text_lines(text);
            let mut out: Vec<Line> = Vec::new();
            let mut i: usize = 0;
            while i < contents.len()
                invariant
                    rows == text_lines(text),
                    contents@.len() == rows.len(),
                    forall|k: int|
                        #![trigger contents@[k]]
                        0 <= k < contents@.len() ==> texts(contents@[k]@) == Seq::new(
                            rows[k].len(),
                            |j: int| rows[k][j].content,
                        ),
                    i <= contents.len(),
                    out@.len() == i,
                    forall|k: int| 0 <= k < i ==> (#[trigger] out@[k])@ == rows[k],
                decreases contents.len() - i,
            {
                let parts = &contents[i];
                let ghost row = rows[i as int];
                proof {
                    assert(texts(parts@).len() == parts@.len());
                }
                let mut spans: Vec<Span> = Vec::new();
                let mut j: usize = 0;
                while j < parts.len()
                    invariant
                        rows == text_lines(text),
                        i < rows.len(),
                        row == rows[i as int],
                        parts@.len() == row.len(),
                        texts(parts@) == Seq::new(row.len(), |n: int| row[n].content),
                        j <= parts.len(),
                        spans@.len() == j,
                        forall|k: int| 0 <= k < j ==> (#[trigger] spans@[k])@ == row[k],
                    decreases parts.len() - j,
                {
                    proof {
                        assert(texts(parts@)[j as int] == row[j as int].content);
                    }
                    spans.push(Span::styled(parts[j].clone(), span_style(&text, i, j)));
                    j = j + 1;
                }
                let line = Line { spans };
                assert(line@ =~= row);
                out.push(line);
                i = i + 1;
            }
            assert(line_models(out@) =~= rows);
            out
        },
        None => unread(raw),
    }
}

/// The lines of a text that is shown as it is.
fn unread(raw: &str) -> (r: Vec<Line>)
    ensures
        line_models(r@) == unread_lines(raw@),
        ended_len(row_texts(line_models(r@))) <= raw@.len() + 1,
{
    let parts = str_line_strings(raw);
    let mut out: Vec<Line> = Vec::new();
    let mut i: usize = 0;
    proof {
        assert(texts(parts@).len() == parts@.len());
    }
    while i < parts.len()
        invariant
            texts(parts@) == str_lines(raw@),
            i <= parts.len(),
            out@.len() == i,
            forall|k: int| 0 <= k < i ==> (#[trigger] out@[k])@ == raw_spans(str_lines(raw@)[k]),
        decreases parts.len() - i,
    {
        assert(texts(parts@)[i as int] == parts@[i as int]@);
        out.push(Line::raw(parts[i].as_str()));
        i = i + 1;
    }
    assert(line_models(out@) =~= unread_lines(raw@));
    proof {
        lemma_unread_len(raw@);
    }
    out
}

/// Lines shown as they are hold no more than their text.
proof fn lemma_unread_len(raw: Seq<char>)
    ensures
        ended_len(row_texts(unread_lines(raw))) <= raw.len() + 1,
{
    let lines = str_lines(raw);
    lemma_lines_hold_no_newline(raw);
    assert forall|i: int| 0 <= i < lines.len() implies #[trigger] row_texts(unread_lines(raw))[i]
        == lines[i] by {
        assert forall|j: int| 0 <= j < lines[i].len() implies #[trigger] lines[i][j] != '\n' by {
            assert(str_lines(raw)[i][j] != '\n');
        }
        lemma_raw_text(lines[i]);
        assert(unread_lines(raw)[i] == raw_spans(lines[i]));
    }
    assert(row_texts(unread_lines(raw)) =~= lines);
    lemma_str_lines_len(raw);
}

// ---------------------------------------------------------------------------
// Laws
// ---------------------------------------------------------------------------

/// A text whose escape sequences cannot be read is shown as it is: line by line,
/// without styles.
pub proof fn law_unread_text_is_shown_as_it_is(raw: Seq<char>, i: int)
    requires
        0 <= i < str_lines(raw).len(),
    ensures
        unread_lines(raw).len() == str_lines(raw).len(),
        row_text(unread_lines(raw)[i]) == str_lines(raw)[i],
        forall|k: int|
            0 <= k < unread_lines(raw)[i].len() ==> (#[trigger] unread_lines(raw)[i][k]).style
                == plain_style(),
        ansi_parse(raw) is None ==> ansi_lines(raw) == unread_lines(raw),
        ansi_parse(raw) matches Some(rows) ==> ansi_lines(raw) == rows,
{
    lemma_lines_hold_no_newline(raw);
    let line = str_lines(raw)[i];
    assert forall|j: int| 0 <= j < line.len() implies #[trigger] line[j] != '\n' by {
        assert(str_lines(raw)[i][j] != '\n');
    }
    lemma_raw_text(line);
}

} // verus!
