//! Colours, styles and styled text.
//!
//! These types hold as plain values what a terminal library draws with. A row
//! of a panel is a [`Line`] of [`Span`]s, each a run of characters in one
//! [`Style`].

use vstd::prelude::*;

use crate::text::{lemma_single_line, str_line_strings, str_lines, texts};

verus! {

/// A terminal colour: the terminal's own default, one of its sixteen named
/// colours, a true colour, or an entry of its 256-colour palette.
#[derive(Clone, Copy, Debug, PartialEq, Eq, Structural)]
pub enum Color {
    Reset,
    Black,
    Red,
    Green,
    Yellow,
    Blue,
    Magenta,
    Cyan,
    Gray,
    DarkGray,
    LightRed,
    LightGreen,
    LightYellow,
    LightBlue,
    LightMagenta,
    LightCyan,
    White,
    Rgb(u8, u8, u8),
    Indexed(u8),
}

/// The modifier bit for bold text.
pub const BOLD: u16 = 1;

/// The modifier bit for dim text.
pub const DIM: u16 = 2;

/// How a run of text is drawn. A colour that is `None` is left as it is; the
/// modifier fields are sets of bits to switch on and off.
#[derive(Clone, Copy, Debug, PartialEq, Eq, Structural)]
pub struct Style {
    /// Foreground colour.
    pub fg: Option<Color>,
    /// Background colour.
    pub bg: Option<Color>,
    /// Colour of the underline.
    pub underline_color: Option<Color>,
    /// Modifier bits to switch on.
    pub add_modifier: u16,
    /// Modifier bits to switch off.
    pub sub_modifier: u16,
}

/// The style that changes nothing.
pub open spec fn plain_style() -> Style {
    Style { fg: None, bg: None, underline_color: None, add_modifier: 0, sub_modifier: 0 }
}

impl Default for Style {
    /// The style that changes nothing.
    fn default() -> (r: Self)
        ensures
            r == plain_style(),
    {
        Style { fg: None, bg: None, underline_color: None, add_modifier: 0, sub_modifier: 0 }
    }
}

/// A run of characters in one style.
#[derive(Debug, PartialEq, Eq)]
pub struct Span {
    /// The characters.
    pub content: String,
    /// The style they are drawn with.
    pub style: Style,
}

/// What a [`Span`] holds.
pub struct SpanModel {
    pub content: Seq<char>,
    pub style: Style,
}

impl View for Span {
    type V = SpanModel;

    open spec fn view(&self) -> SpanModel {
        SpanModel { content: self.content@, style: self.style }
    }
}

impl Clone for Span {
    fn clone(&self) -> (r: Self)
        ensures
            r == *self,
    {
        Span { content: self.content.clone(), style: self.style }
    }
}

impl Span {
    /// A run of `content` that changes no style.
    pub fn raw(content: String) -> (r: Self)
        ensures
            r.content == content,
            r.style == plain_style(),
    {
        Span { content, style: Style::default() }
    }

    /// A run of `content` in `style`.
    pub fn styled(content: String, style: Style) -> (r: Self)
        ensures
            r.content == content,
            r.style == style,
    {
        Span { content, style }
    }
}

/// One row of styled text.
#[derive(Debug, PartialEq, Eq)]
pub struct Line {
    /// The runs of the row, from left to right.
    pub spans: Vec<Span>,
}

impl View for Line {
    type V = Seq<SpanModel>;

    open spec fn view(&self) -> Seq<SpanModel> {
        Seq::new(self.spans@.len(), |i: int| self.spans@[i]@)
    }
}

/// What a sequence of lines holds.
pub open spec fn line_models(lines: Seq<Line>) -> Seq<Seq<SpanModel>> {
    Seq::new(lines.len(), |i: int| lines[i]@)
}

/// The characters of a row, its runs one after the other.
pub open spec fn row_text(row: Seq<SpanModel>) -> Seq<char>
    decreases row.len(),
{
    if row.len() == 0 {
        Seq::<char>::empty()
    } else {
        row_text(row.drop_last()) + row.last().content
    }
}

impl Clone for Line {
    fn clone(&self) -> (r: Self)
        ensures
            r@ == self@,
    {
        let mut spans: Vec<Span> = Vec::new();
        let mut i: usize = 0;
        while i < self.spans.len()
            invariant
                i <= self.spans.len(),
                spans@ == self.spans@.take(i as int),
            decreases self.spans.len() - i,
        {
            spans.push(self.spans[i].clone());
            assert(self.spans@.take(i + 1) =~= self.spans@.take(i as int).push(
                self.spans@[i as int],
            ));
            i = i + 1;
        }
        let r = Line { spans };
        assert(r@ =~= self@);
        r
    }
}

/// The runs of an unstyled text: one for each of its lines, so a text without a
/// line feed is one run, and an empty text none.
pub open spec fn raw_spans(s: Seq<char>) -> Seq<SpanModel> {
    Seq::new(
        str_lines(s).len(),
        |i: int| SpanModel { content: str_lines(s)[i], style: plain_style() },
    )
}

impl Line {
    /// The unstyled line of `content`.
    pub fn raw(content: &str) -> (r: Self)
        ensures
            r@ == raw_spans(content@),
    {
        let parts = str_line_strings(content);
        let mut spans: Vec<Span> = Vec::new();
        let mut i: usize = 0;
        while i < parts.len()
            invariant
                i <= parts.len(),
                spans@.len() == i,
                forall|k: int|
                    0 <= k < i ==> (#[trigger] spans@[k])@ == (SpanModel {
                        content: parts@[k]@,
                        style: plain_style(),
                    }),
            decreases parts.len() - i,
        {
            spans.push(Span::raw(parts[i].clone()));
            i = i + 1;
        }
        let r = Line { spans };
        proof {
            assert(texts(parts@).len() == parts@.len());
            assert(r@ =~= raw_spans(content@));
        }
        r
    }
}

/// A text without line feeds is one run, unless it is empty.
pub proof fn lemma_raw_text(s: Seq<char>)
    requires
        forall|j: int| 0 <= j < s.len() ==> #[trigger] s[j] != '\n',
    ensures
        raw_spans(s) == (if s.len() == 0 {
            Seq::<SpanModel>::empty()
        } else {
            seq![SpanModel { content: s, style: plain_style() }]
        }),
        row_text(raw_spans(s)) == s,
{
    lemma_single_line(s);
    let spans = raw_spans(s);
    if s.len() == 0 {
        assert(spans =~= Seq::<SpanModel>::empty());
        assert(s =~= Seq::<char>::empty());
    } else {
        assert(spans =~= seq![SpanModel { content: s, style: plain_style() }]);
        assert(spans.drop_last() =~= Seq::<SpanModel>::empty());
        assert(row_text(spans.drop_last()) =~= Seq::<char>::empty());
        assert(Seq::<char>::empty() + s =~= s);
    }
}

/// A copy of `lines`.
pub(crate) fn copy_lines(lines: &Vec<Line>) -> (r: Vec<Line>)
    ensures
        line_models(r@) == line_models(lines@),
{
    let mut out: Vec<Line> = Vec::new();
    let mut i: usize = 0;
    while i < lines.len()
        invariant
            i <= lines.len(),
            line_models(out@) == line_models(lines@).take(i as int),
        decreases lines.len() - i,
    {
        let ghost before = line_models(out@);
        out.push(lines[i].clone());
        proof {
            assert(line_models(out@) =~= before.push(lines@[i as int]@));
            assert(line_models(lines@).take(i + 1) =~= before.push(lines@[i as int]@));
        }
        i = i + 1;
    }
    assert(line_models(lines@).take(lines@.len() as int) =~= line_models(lines@));
    out
}

} // verus!
