//! The cached line and wrap structure of a panel's text.
//!
//! A text is split once into its lines and the rows they take, not at every
//! redraw, so that scrolling and dragging a selection cost what is on screen and
//! not the whole text. The same structure maps between screen space (a row and a
//! column, valid for one width) and the text (a line and a character offset,
//! valid for every width), which is what lets a selection stay on the same
//! characters when a panel is resized.

use std::sync::Arc;

use vstd::cell::invcell::InvCell;
use vstd::prelude::*;

use crate::ansi::{ansi_lines, read_ansi};
use crate::line_ranges::{joined_line_ranges, placed, placed_at, split_line_ranges, LineRanges};
use crate::line_rows::LineRows;
pub use crate::panel_model::{TextKind, TextPos, WrapMarker, WrapMode};
use crate::panel_model::{
    at_least_one, char_styles, effective_width, law_read_rows_are_the_lines,
    law_read_rows_bounded, law_rows_cover_line, lemma_line_at, lemma_line_rows, lemma_row_bounds,
    lemma_row_in_line, lemma_row_line, lemma_rows_before, plain_panel, read_panel, repeated,
    row_styles, row_texts, stripped_styles, stripped_texts, styled_lines_panel, styled_panel,
    PanelModel,
};
use crate::style::{copy_lines, line_models, plain_style, row_text, Color, Line, Span, Style, DIM};
use crate::style_runs::{drop_return, style_at, take_apart, tiles, StyleRun, StyledLines};
use crate::text::{join, join_strings, least, newline, slice_between, strip_cr, texts};
use crate::wrap::{wrapped_row_count, Glyph, RowBuilder};

verus! {

// ---------------------------------------------------------------------------
// The cache
// ---------------------------------------------------------------------------

/// The panel of a text with escape sequences.
pub open spec fn ansi_panel(
    raw: Seq<char>,
    width: usize,
    mode: WrapMode,
    marker: Option<WrapMarker>,
) -> PanelModel {
    read_panel(TextKind::Ansi, raw, ansi_lines(raw), width, mode, marker)
}

/// Whether a cache still fits: it is of the very text that is to be shown, of
/// the same kind, and laid out the same way.
pub open spec fn is_fresh(
    cache: Option<PanelWrap>,
    same_text: bool,
    kind: TextKind,
    width: usize,
    mode: WrapMode,
    marker: Option<WrapMarker>,
) -> bool {
    cache matches Some(c) && same_text && c@.kind == kind && c@.width == width && c@.mode == mode
        && c@.marker == marker
}

/// The window that was asked for last, with its rows.
type Window = (u16, u16, Vec<Line>);

/// What the remembered window of a panel holds: nothing, or the rows that the
/// panel shows there.
pub struct WindowMemo {
    pub model: PanelModel,
}

impl vstd::predicate::Predicate<Option<Window>> for WindowMemo {
    open spec fn predicate(&self, memo: Option<Window>) -> bool {
        memo matches Some(window) ==> line_models(window.2@) == self.model.window(
            window.0 as int,
            window.1 as int,
        )
    }
}

/// The line and wrap structure of one panel's text, built anew only when the
/// text or the layout changes (see [`PanelWrap::rebuild_if_needed`]).
pub struct PanelWrap {
    /// The text the panel was given, escape sequences included.
    raw: Arc<str>,
    /// The text that is shown, selected and copied.
    source: Arc<str>,
    /// The bytes of `source` that each line lies between.
    line_ranges: Vec<(usize, usize)>,
    rows: LineRows,
    width: usize,
    /// The width that lines are broken at.
    wrap_width: usize,
    mode: WrapMode,
    marker: Option<WrapMarker>,
    kind: TextKind,
    /// The style runs of each line; none for a text without styles.
    line_styles: Option<Vec<Vec<StyleRun>>>,
    /// The last window, so that drawing the same rows again costs a copy.
    last_window: InvCell<Option<Window>, WindowMemo>,
    starts: Ghost<Seq<int>>,
    model: Ghost<PanelModel>,
}

impl View for PanelWrap {
    type V = PanelModel;

    closed spec fn view(&self) -> PanelModel {
        self.model@
    }
}

impl PanelWrap {
    /// Whether the fields hold what the model says.
    pub closed spec fn linked(&self) -> bool {
        let m = self@;
        &&& self.raw@ == m.raw
        &&& self.source@ == m.source
        &&& placed(m.source, m.lines, self.line_ranges@, self.starts@)
        &&& self.rows.counts(m)
        &&& self.width == m.width
        &&& self.wrap_width == m.wrap_width()
        &&& self.mode == m.mode
        &&& self.marker == m.marker
        &&& self.kind == m.kind
        &&& self.last_window.predicate().model == m
        &&& match self.line_styles {
            None => forall|i: int|
                0 <= i < m.lines.len() ==> #[trigger] m.styles[i] == repeated(
                    plain_style(),
                    m.lines[i].len(),
                ),
            Some(all) => {
                &&& all@.len() == m.lines.len()
                &&& forall|i: int|
                    0 <= i < m.lines.len() ==> tiles(all@[i]@, #[trigger] m.styles[i])
            },
        }
    }

    /// What holds of every cache.
    #[verifier::type_invariant]
    pub open spec fn inv(self) -> bool {
        &&& self@.wf()
        &&& self@.kind == TextKind::Plain ==> self@ == plain_panel(
            self@.raw,
            self@.width,
            self@.mode,
            self@.marker,
        )
        &&& self@.kind == TextKind::Ansi ==> self@ == ansi_panel(
            self@.raw,
            self@.width,
            self@.mode,
            self@.marker,
        )
        &&& self.linked()
    }

    // -----------------------------------------------------------------------
    // Building
    // -----------------------------------------------------------------------

    /// The cache of `source` in a panel of `width` columns that wraps long lines.
    pub fn build(source: Arc<str>, width: usize) -> (r: Self)
        requires
            plain_panel(source@, width, WrapMode::Wrap, None).total_rows() <= u32::MAX,
        ensures
            r@ == plain_panel(source@, width, WrapMode::Wrap, None),
    {
        Self::build_with(source, width, WrapMode::Wrap)
    }

    /// The cache of `source` laid out as `mode` says.
    pub fn build_with(source: Arc<str>, width: usize, mode: WrapMode) -> (r: Self)
        requires
            plain_panel(source@, width, mode, None).total_rows() <= u32::MAX,
        ensures
            r@ == plain_panel(source@, width, mode, None),
    {
        Self::build_with_marker(source, width, mode, None)
    }

    /// The cache of `source` laid out as `mode` says, with a marker on rows that
    /// are continued below.
    pub fn build_with_marker(
        source: Arc<str>,
        width: usize,
        mode: WrapMode,
        marker: Option<WrapMarker>,
    ) -> (r: Self)
        requires
            plain_panel(source@, width, mode, marker).total_rows() <= u32::MAX,
        ensures
            r@ == plain_panel(source@, width, mode, marker),
    {
        let ghost m = plain_panel(source@, width, mode, marker);
        let found = split_line_ranges(&*source);
        let count: usize = found.ranges.len();
        proof {
            assert(count == m.lines.len());
            assert forall|i: int| 0 <= i < m.lines.len() implies (#[trigger] m.styles[i]).len()
                == m.lines[i].len() by {
                assert(m.styles[i] == repeated(plain_style(), m.lines[i].len()));
            }
            assert forall|i: int| 0 <= i < m.lines.len() implies (#[trigger] m.lines[i]).len()
                <= usize::MAX by {
                assert(found.lens@[i] == m.lines[i].len());
            }
        }
        let raw = Arc::clone(&source);
        Self::assemble(TextKind::Plain, raw, source, found, width, mode, marker, None, Ghost(m))
    }

    /// Puts a cache together from the lines that were found.
    fn assemble(
        kind: TextKind,
        raw: Arc<str>,
        source: Arc<str>,
        found: LineRanges,
        width: usize,
        mode: WrapMode,
        marker: Option<WrapMarker>,
        line_styles: Option<Vec<Vec<StyleRun>>>,
        Ghost(m): Ghost<PanelModel>,
    ) -> (r: Self)
        requires
            m.wf(),
            kind == TextKind::Plain ==> m == plain_panel(raw@, width, mode, marker),
            kind == TextKind::Ansi ==> m == ansi_panel(raw@, width, mode, marker),
            found.finds(m.source, m.lines),
            m.kind == kind,
            m.raw == raw@,
            m.source == source@,
            m.width == width,
            m.mode == mode,
            m.marker == marker,
            match line_styles {
                None => forall|i: int|
                    0 <= i < m.lines.len() ==> #[trigger] m.styles[i] == repeated(
                        plain_style(),
                        m.lines[i].len(),
                    ),
                Some(all) => {
                    &&& all@.len() == m.lines.len()
                    &&& forall|i: int|
                        0 <= i < m.lines.len() ==> tiles(all@[i]@, #[trigger] m.styles[i])
                },
            },
        ensures
            r@ == m,
    {
        let wrap_width: usize = effective_wrap_width(width, mode, marker.is_some());
        let LineRanges { ranges, lens, starts } = found;
        let rows = LineRows::build(lens, wrap_width, mode, Ghost(m));
        let memo: Option<Window> = None;
        PanelWrap {
            raw,
            source,
            line_ranges: ranges,
            rows,
            width,
            wrap_width,
            mode,
            marker,
            kind,
            line_styles,
            last_window: InvCell::new(memo, Ghost(WindowMemo { model: m })),
            starts,
            model: Ghost(m),
        }
    }

    // -----------------------------------------------------------------------
    // Building from styled lines
    // -----------------------------------------------------------------------

    /// The cache of styled lines in a panel of `width` columns that wraps long
    /// lines. What is selected and copied is their plain text.
    pub fn build_styled(lines: &[Line], width: usize) -> (r: Self)
        requires
            styled_lines_panel(
                line_models(lines@),
                width,
                WrapMode::Wrap,
                None,
            ).total_rows() <= u32::MAX,
        ensures
            r@ == styled_lines_panel(line_models(lines@), width, WrapMode::Wrap, None),
    {
        Self::build_styled_with_marker(lines, width, WrapMode::Wrap, None)
    }

    /// The cache of styled lines laid out as `mode` says, with a marker on rows
    /// that are continued below.
    pub fn build_styled_with_marker(
        lines: &[Line],
        width: usize,
        mode: WrapMode,
        marker: Option<WrapMarker>,
    ) -> (r: Self)
        requires
            styled_lines_panel(line_models(lines@), width, mode, marker).total_rows() <= u32::MAX,
        ensures
            r@ == styled_lines_panel(line_models(lines@), width, mode, marker),
    {
        let ghost rows = at_least_one(line_models(lines@));
        let mut found = StyledLines::new();
        let mut i: usize = 0;
        while i < lines.len()
            invariant
                i <= lines.len(),
                found.wf(),
                found.texts@.len() == i,
                found.char_styles@.len() == i,
                forall|k: int|
                    0 <= k < i ==> (#[trigger] found.texts@[k])@ == row_text(lines@[k]@),
                forall|k: int|
                    0 <= k < i ==> #[trigger] found.char_styles@[k] == char_styles(lines@[k]@),
            decreases lines.len() - i,
        {
            let part = take_apart(&lines[i]);
            found.push(part, Ghost(char_styles(lines@[i as int]@)));
            i = i + 1;
        }
        if lines.len() == 0 {
            found.push_empty();
        }
        proof {
            assert(texts(found.texts@) =~= row_texts(rows));
            assert(found.char_styles@ =~= row_styles(rows));
        }
        let joined = join_strings(&found.texts, "\n");
        proof {
            reveal_strlit("\n");
            assert("\n"@ =~= newline());
        }
        let source = shared_text(joined);
        let raw = Arc::clone(&source);
        Self::from_styled_lines(TextKind::Styled, raw, source, found, width, mode, marker)
    }

    /// The cache of lines that were taken apart into their texts and styles.
    fn from_styled_lines(
        kind: TextKind,
        raw: Arc<str>,
        source: Arc<str>,
        found: StyledLines,
        width: usize,
        mode: WrapMode,
        marker: Option<WrapMarker>,
    ) -> (r: Self)
        requires
            kind != TextKind::Plain,
            kind == TextKind::Ansi ==> styled_panel(
                kind,
                raw@,
                texts(found.texts@),
                found.char_styles@,
                width,
                mode,
                marker,
            ) == ansi_panel(raw@, width, mode, marker),
            found.wf(),
            found.texts@.len() > 0,
            source@ == join(texts(found.texts@), newline()),
            styled_panel(
                kind,
                raw@,
                texts(found.texts@),
                found.char_styles@,
                width,
                mode,
                marker,
            ).total_rows() <= u32::MAX,
        ensures
            r@ == styled_panel(
                kind,
                raw@,
                texts(found.texts@),
                found.char_styles@,
                width,
                mode,
                marker,
            ),
    {
        let ghost m = styled_panel(
            kind,
            raw@,
            texts(found.texts@),
            found.char_styles@,
            width,
            mode,
            marker,
        );
        let count: usize = found.texts.len();
        let StyledLines { texts: parts, runs, lens, char_styles } = found;
        let places = joined_line_ranges(&*source, &parts, lens);
        proof {
            assert(count == m.lines.len());
            assert forall|i: int| 0 <= i < m.lines.len() implies (#[trigger] m.lines[i]).len()
                <= usize::MAX by {
                assert(places.lens@[i] == m.lines[i].len());
            }
            assert forall|i: int| 0 <= i < m.lines.len() implies (#[trigger] m.styles[i]).len()
                == m.lines[i].len() by {
                assert(m.lines[i] == parts@[i]@);
            }
        }
        Self::assemble(kind, raw, source, places, width, mode, marker, Some(runs), Ghost(m))
    }

    // -----------------------------------------------------------------------
    // Building from texts with escape sequences
    // -----------------------------------------------------------------------

    /// The cache of a text with escape sequences, laid out as `mode` says. The
    /// sequences are read once; what is selected and copied is the text without
    /// them.
    pub fn build_ansi(raw: Arc<str>, width: usize, mode: WrapMode) -> (r: Self)
        requires
            raw@.len() < u32::MAX,
        ensures
            r@ == ansi_panel(raw@, width, mode, None),
    {
        Self::build_ansi_with_marker(raw, width, mode, None)
    }

    /// The cache of a text with escape sequences, with a marker on rows that are
    /// continued below.
    pub fn build_ansi_with_marker(
        raw: Arc<str>,
        width: usize,
        mode: WrapMode,
        marker: Option<WrapMarker>,
    ) -> (r: Self)
        requires
            raw@.len() < u32::MAX,
        ensures
            r@ == ansi_panel(raw@, width, mode, marker),
    {
        let lines = read_ansi(&*raw);
        proof {
            law_read_rows_bounded(TextKind::Ansi, raw@, line_models(lines@), width, mode, marker);
        }
        Self::from_read_lines(TextKind::Ansi, raw, &lines, width, mode, marker)
    }

    /// The cache of the styled lines that were read from the text `raw`.
    pub fn build_read(
        raw: Arc<str>,
        lines: &[Line],
        width: usize,
        mode: WrapMode,
        marker: Option<WrapMarker>,
    ) -> (r: Self)
        requires
            read_panel(
                TextKind::Styled,
                raw@,
                line_models(lines@),
                width,
                mode,
                marker,
            ).total_rows() <= u32::MAX,
        ensures
            r@ == read_panel(TextKind::Styled, raw@, line_models(lines@), width, mode, marker),
    {
        Self::from_read_lines(TextKind::Styled, raw, lines, width, mode, marker)
    }

    /// The cache of styled lines that were read from the text `raw`, kept as
    /// `kind`.
    fn from_read_lines(
        kind: TextKind,
        raw: Arc<str>,
        lines: &[Line],
        width: usize,
        mode: WrapMode,
        marker: Option<WrapMarker>,
    ) -> (r: Self)
        requires
            kind != TextKind::Plain,
            kind == TextKind::Ansi ==> line_models(lines@) == ansi_lines(raw@),
            read_panel(kind, raw@, line_models(lines@), width, mode, marker).total_rows()
                <= u32::MAX,
        ensures
            r@ == read_panel(kind, raw@, line_models(lines@), width, mode, marker),
    {
        let ghost rows = at_least_one(line_models(lines@));
        let mut found = StyledLines::new();
        let mut i: usize = 0;
        while i < lines.len()
            invariant
                i <= lines.len(),
                found.wf(),
                found.texts@.len() == i,
                found.char_styles@.len() == i,
                forall|k: int|
                    0 <= k < i ==> (#[trigger] found.texts@[k])@ == strip_cr(
                        row_text(lines@[k]@),
                    ),
                forall|k: int|
                    0 <= k < i ==> #[trigger] found.char_styles@[k] == char_styles(
                        lines@[k]@,
                    ).take(strip_cr(row_text(lines@[k]@)).len() as int),
            decreases lines.len() - i,
        {
            let ghost styles = char_styles(lines@[i as int]@);
            let part = take_apart(&lines[i]);
            let part = drop_return(part, Ghost(styles));
            found.push(part, Ghost(styles.take(part.len as int)));
            i = i + 1;
        }
        if lines.len() == 0 {
            found.push_empty();
            proof {
                assert(char_styles(rows[0]).take(0) =~= Seq::<Style>::empty());
            }
        }
        proof {
            assert(texts(found.texts@) =~= stripped_texts(rows));
            assert(found.char_styles@ =~= stripped_styles(rows));
        }
        let joined = join_strings(&found.texts, "\n");
        proof {
            reveal_strlit("\n");
            assert("\n"@ =~= newline());
        }
        let source = shared_text(joined);
        Self::from_styled_lines(kind, raw, source, found, width, mode, marker)
    }

    // -----------------------------------------------------------------------
    // Building anew
    // -----------------------------------------------------------------------

    /// Whether the cache no longer fits what is to be shown. `same_text` says
    /// whether it was built from the very text that is to be shown.
    pub fn is_stale(
        &self,
        same_text: bool,
        kind: TextKind,
        width: usize,
        mode: WrapMode,
        marker: Option<WrapMarker>,
    ) -> (r: bool)
        ensures
            r == !is_fresh(Some(*self), same_text, kind, width, mode, marker),
    {
        proof {
            use_type_invariant(self);
        }
        !(same_text && self.kind == kind && self.width == width && self.mode == mode
            && self.marker == marker)
    }

    /// Builds the cache anew if `source` is not the very text it was built from
    /// or `width` differs; leaves it alone otherwise. Lines wrap.
    pub fn rebuild_if_needed(cache: &mut Option<PanelWrap>, source: &Arc<str>, width: usize)
        requires
            plain_panel(source@, width, WrapMode::Wrap, None).total_rows() <= u32::MAX,
        ensures
            *final(cache) matches Some(c) && c@ == plain_panel(
                source@,
                width,
                WrapMode::Wrap,
                None,
            ),
    {
        Self::rebuild_if_needed_with(cache, source, width, WrapMode::Wrap);
    }

    /// Like [`PanelWrap::rebuild_if_needed`], for lines laid out as `mode` says;
    /// a change of mode, or a cached text of another kind, makes for a new cache
    /// too.
    pub fn rebuild_if_needed_with(
        cache: &mut Option<PanelWrap>,
        source: &Arc<str>,
        width: usize,
        mode: WrapMode,
    )
        requires
            plain_panel(source@, width, mode, None).total_rows() <= u32::MAX,
        ensures
            *final(cache) matches Some(c) && c@ == plain_panel(source@, width, mode, None),
    {
        Self::rebuild_if_needed_marker(cache, source, width, mode, None);
    }

    /// Like [`PanelWrap::rebuild_if_needed_with`], with a marker on rows that are
    /// continued below; a change of marker makes for a new cache too.
    pub fn rebuild_if_needed_marker(
        cache: &mut Option<PanelWrap>,
        source: &Arc<str>,
        width: usize,
        mode: WrapMode,
        marker: Option<WrapMarker>,
    )
        requires
            plain_panel(source@, width, mode, marker).total_rows() <= u32::MAX,
        ensures
            *final(cache) matches Some(c) && c@ == plain_panel(source@, width, mode, marker),
    {
        let same_text: bool = match cache {
            Some(c) => {
                proof {
                    use_type_invariant(&*c);
                }
                same_allocation(&c.raw, source)
            },
            None => false,
        };
        Self::rebuild_unless_fresh(cache, same_text, source, width, mode, marker);
    }

    /// Builds the cache of a text without styles anew, unless it still fits; a
    /// cache that does is left untouched. `same_text` says whether the cache was
    /// built from the very text `source`.
    pub fn rebuild_unless_fresh(
        cache: &mut Option<PanelWrap>,
        same_text: bool,
        source: &Arc<str>,
        width: usize,
        mode: WrapMode,
        marker: Option<WrapMarker>,
    )
        requires
            plain_panel(source@, width, mode, marker).total_rows() <= u32::MAX,
            same_text ==> (*old(cache) matches Some(c) ==> c@.raw == source@),
        ensures
            *final(cache) matches Some(c) && c@ == plain_panel(source@, width, mode, marker),
            is_fresh(*old(cache), same_text, TextKind::Plain, width, mode, marker)
                ==> *final(cache) == *old(cache),
    {
        let stale: bool = match cache {
            Some(c) => {
                proof {
                    use_type_invariant(&*c);
                }
                c.is_stale(same_text, TextKind::Plain, width, mode, marker)
            },
            None => true,
        };
        if stale {
            *cache = Some(Self::build_with_marker(Arc::clone(source), width, mode, marker));
        }
    }

    /// Like [`PanelWrap::rebuild_if_needed_with`], for a text with escape
    /// sequences.
    pub fn rebuild_if_needed_ansi(
        cache: &mut Option<PanelWrap>,
        raw: &Arc<str>,
        width: usize,
        mode: WrapMode,
    )
        requires
            raw@.len() < u32::MAX,
        ensures
            *final(cache) matches Some(c) && c@ == ansi_panel(
                raw@,
                width,
                mode,
                None,
            ),
    {
        Self::rebuild_if_needed_ansi_marker(cache, raw, width, mode, None);
    }

    /// Like [`PanelWrap::rebuild_if_needed_ansi`], with a marker on rows that are
    /// continued below.
    pub fn rebuild_if_needed_ansi_marker(
        cache: &mut Option<PanelWrap>,
        raw: &Arc<str>,
        width: usize,
        mode: WrapMode,
        marker: Option<WrapMarker>,
    )
        requires
            raw@.len() < u32::MAX,
        ensures
            *final(cache) matches Some(c) && c@ == ansi_panel(
                raw@,
                width,
                mode,
                marker,
            ),
    {
        let same_text: bool = match cache {
            Some(c) => {
                proof {
                    use_type_invariant(&*c);
                }
                same_allocation(&c.raw, raw)
            },
            None => false,
        };
        Self::rebuild_ansi_unless_fresh(cache, same_text, raw, width, mode, marker);
    }

    /// Builds the cache of a text with escape sequences anew, unless it still
    /// fits; a cache that does is left untouched. `same_text` says whether the
    /// cache was built from the very text `raw`.
    pub fn rebuild_ansi_unless_fresh(
        cache: &mut Option<PanelWrap>,
        same_text: bool,
        raw: &Arc<str>,
        width: usize,
        mode: WrapMode,
        marker: Option<WrapMarker>,
    )
        requires
            raw@.len() < u32::MAX,
            same_text ==> (*old(cache) matches Some(c) ==> c@.raw == raw@),
        ensures
            *final(cache) matches Some(c) && c@ == ansi_panel(raw@, width, mode, marker),
            is_fresh(*old(cache), same_text, TextKind::Ansi, width, mode, marker)
                ==> *final(cache) == *old(cache),
    {
        let stale: bool = match cache {
            Some(c) => {
                proof {
                    use_type_invariant(&*c);
                }
                c.is_stale(same_text, TextKind::Ansi, width, mode, marker)
            },
            None => true,
        };
        if stale {
            *cache = Some(Self::build_ansi_with_marker(Arc::clone(raw), width, mode, marker));
        }
    }

    // -----------------------------------------------------------------------
    // Asking
    // -----------------------------------------------------------------------

    /// How long lines are laid out.
    pub fn mode(&self) -> (r: WrapMode)
        ensures
            r == self@.mode,
    {
        proof {
            use_type_invariant(self);
        }
        self.mode
    }

    /// The columns of the panel.
    pub fn width(&self) -> (r: usize)
        ensures
            r == self@.width,
    {
        proof {
            use_type_invariant(self);
        }
        self.width
    }

    /// The width that lines are broken at: the panel's, less the column that a
    /// marker takes up. What is selected and highlighted goes by this width, so
    /// the marker's column is left out.
    pub fn wrap_width(&self) -> (r: usize)
        ensures
            r == self@.wrap_width(),
    {
        proof {
            use_type_invariant(self);
        }
        self.wrap_width
    }

    /// What marks a row that its line continues past.
    pub fn marker(&self) -> (r: Option<WrapMarker>)
        ensures
            r == self@.marker,
    {
        proof {
            use_type_invariant(self);
        }
        self.marker
    }

    /// What kind of text the panel shows.
    pub fn kind(&self) -> (r: TextKind)
        ensures
            r == self@.kind,
    {
        proof {
            use_type_invariant(self);
        }
        self.kind
    }

    /// The number of lines, at least one.
    pub fn line_count(&self) -> (r: usize)
        ensures
            r == self@.lines.len(),
            r >= 1,
            self@.wf(),
    {
        proof {
            use_type_invariant(self);
        }
        self.rows.line_count(Ghost(self@))
    }

    /// The whole text that is shown, with its line endings.
    pub fn source(&self) -> (r: &str)
        ensures
            r@ == self@.source,
    {
        proof {
            use_type_invariant(self);
        }
        &*self.source
    }

    /// The text of line `idx`.
    pub fn line_text(&self, idx: usize) -> (r: &str)
        requires
            idx < self@.lines.len(),
        ensures
            r@ == self@.lines[idx as int],
    {
        proof {
            use_type_invariant(self);
            let line = self@.lines[idx as int];
            assert(placed_at(
                self@.source,
                line,
                self.line_ranges@[idx as int],
                self.starts@[idx as int],
            ));
        }
        let (from, to) = self.line_ranges[idx];
        let ghost start = self.starts@[idx as int];
        slice_between(
            &*self.source,
            from,
            to,
            Ghost(start),
            Ghost(start + self@.lines[idx as int].len()),
        )
    }

    /// The number of characters of line `idx`, none for a line that there is
    /// not.
    pub fn line_char_len(&self, idx: usize) -> (r: usize)
        ensures
            r == (if idx < self@.lines.len() {
                self@.lines[idx as int].len()
            } else {
                0
            }),
    {
        proof {
            use_type_invariant(self);
        }
        if idx < self.rows.lens.len() {
            self.rows.lens[idx]
        } else {
            0
        }
    }

    /// The number of rows of the whole text, at least one.
    pub fn total_rows(&self) -> (r: u32)
        ensures
            r == self@.total_rows(),
            r >= 1,
            self@.wf(),
    {
        proof {
            use_type_invariant(self);
        }
        self.rows.total_rows(Ghost(self@))
    }

    // -----------------------------------------------------------------------
    // Showing
    // -----------------------------------------------------------------------

    /// The rows to be seen in a window of `height` rows from row `scroll` on.
    /// Only these are wrapped, and only the part of each line that they show.
    /// Asking for the same window again wraps nothing.
    pub fn visible_window(&self, scroll: u16, height: u16) -> (r: Vec<Line>)
        ensures
            line_models(r@) == self@.window(scroll as int, height as int),
    {
        proof {
            use_type_invariant(self);
        }
        let memo = self.last_window.replace(None);
        if let Some((last_scroll, last_height, rows)) = memo {
            if last_scroll == scroll && last_height == height {
                let copy = copy_lines(&rows);
                self.last_window.set(Some((last_scroll, last_height, rows)));
                return copy;
            }
        }
        let out = self.visible_rows(scroll as u32, height as usize);
        let copy = copy_lines(&out);
        self.last_window.set(Some((scroll, height, copy)));
        out
    }

    /// The rows to be seen in a window, wrapped anew.
    fn visible_rows(&self, scroll: u32, height: usize) -> (r: Vec<Line>)
        ensures
            line_models(r@) == self@.window(scroll as int, height as int),
    {
        proof {
            use_type_invariant(self);
        }
        let ghost m = self@;
        let mut out: Vec<Line> = Vec::new();
        if scroll >= self.total_rows() {
            assert(line_models(out@) =~= m.window(scroll as int, height as int));
            return out;
        }
        let (start_line, row_in_line) = self.rows.locate(scroll, Ghost(m));
        let mut skip: usize = row_in_line as usize;
        let mut idx: usize = start_line;
        let count: usize = self.line_count();
        proof {
            lemma_row_line(m, scroll as int);
            assert(line_models(out@) =~= m.window(scroll as int, 0));
        }
        while idx < count && out.len() < height
            invariant
                m == self@,
                m.wf(),
                count == m.lines.len(),
                start_line <= idx <= count,
                scroll < m.total_rows(),
                out@.len() <= height,
                idx < count ==> skip < m.line_rows(idx as int),
                idx < count && out@.len() < height ==> scroll + out@.len() == m.rows_before(
                    idx as int,
                ) + skip,
                idx == count && out@.len() < height ==> scroll + out@.len() == m.total_rows(),
                scroll + out@.len() <= m.total_rows(),
                line_models(out@) == m.window(scroll as int, out@.len() as int),
            decreases count - idx,
        {
            let ghost before = out@;
            let budget: usize = height - out.len();
            proof {
                lemma_rows_before(m, idx as int, idx + 1);
                if idx + 1 < count {
                    lemma_rows_before(m, idx + 1, count as int);
                    lemma_line_rows(m, idx + 1);
                }
            }
            self.push_line_rows(idx, skip, budget, &mut out);
            proof {
                assert forall|k: int| 0 <= k < out@.len() implies (#[trigger] out@[k])@
                    == m.panel_row(scroll + k) by {
                    if k < before.len() {
                        assert(out@[k] == before[k]);
                        assert(line_models(before)[k] == m.window(
                            scroll as int,
                            before.len() as int,
                        )[k]);
                    } else {
                        let row = scroll + k;
                        lemma_line_at(m, row, idx as int);
                    }
                }
                assert(line_models(out@) =~= m.window(scroll as int, out@.len() as int));
            }
            skip = 0;
            idx = idx + 1;
        }
        proof {
            let n = m.window_len(scroll as int, height as int);
            assert(out@.len() == n);
            assert(m.window(scroll as int, n) =~= m.window(scroll as int, height as int));
        }
        out
    }

    /// Appends at most `max` rows of line `idx` to `out`, from row `skip` of it
    /// on.
    fn push_line_rows(&self, idx: usize, skip: usize, max: usize, out: &mut Vec<Line>)
        requires
            idx < self@.lines.len(),
            skip < self@.line_rows(idx as int),
        ensures
            final(out)@.len() == old(out)@.len() + least(
                max as int,
                self@.line_rows(idx as int) - skip,
            ),
            forall|k: int| 0 <= k < old(out)@.len() ==> #[trigger] final(out)@[k] == old(out)@[k],
            forall|k: int|
                old(out)@.len() <= k < final(out)@.len() ==> (#[trigger] final(out)@[k])@
                    == self@.shown_row(idx as int, skip + k - old(out)@.len()),
    {
        proof {
            use_type_invariant(self);
            lemma_rows_before(self@, idx as int, idx + 1);
        }
        let ghost m = self@;
        let ghost start = out@;
        let ghost i = idx as int;
        let rows: usize = (self.rows.cum[idx + 1] - self.rows.cum[idx]) as usize;
        let len: usize = self.line_char_len(idx);
        let text: &str = self.line_text(idx);
        let broken: bool = self.mode == WrapMode::Wrap && self.wrap_width > 0;
        let mut it = text.chars();
        let mut c: usize = 0;
        let from: usize = if broken {
            proof {
                lemma_row_bounds(m, i, skip as int);
            }
            skip * self.wrap_width
        } else {
            0
        };
        assert(text@.skip(0) =~= text@);
        while c < from
            invariant
                from <= text@.len(),
                c <= from,
                vstd::std_specs::iter::IteratorSpec::remaining(&it) == text@.skip(c as int),
            decreases from - c,
        {
            let _ = it.next();
            assert(text@.skip(c as int).drop_first() =~= text@.skip(c + 1));
            c = c + 1;
        }
        let mut r: usize = skip;
        let mut left: usize = if rows - skip < max {
            rows - skip
        } else {
            max
        };
        let ghost many = left;
        assert(start.skip(0) =~= start);
        while left > 0
            invariant
                self.inv(),
                m == self@,
                i == idx,
                idx < m.lines.len(),
                rows == m.line_rows(i),
                len == m.lines[i].len(),
                text@ == m.lines[i],
                broken == (m.mode == WrapMode::Wrap && m.wrap_width() > 0),
                start == old(out)@,
                r == skip + (many - left),
                r + left <= rows,
                left <= many,
                left > 0 ==> c == m.row_from(i, r as int),
                c <= len,
                vstd::std_specs::iter::IteratorSpec::remaining(&it) == text@.skip(c as int),
                out@.len() == start.len() + (r - skip),
                forall|k: int| 0 <= k < start.len() ==> #[trigger] out@[k] == start[k],
                forall|k: int|
                    start.len() <= k < out@.len() ==> (#[trigger] out@[k])@ == m.shown_row(
                        i,
                        skip + k - start.len(),
                    ),
            decreases left,
        {
            proof {
                lemma_row_bounds(m, i, r as int);
                if left > 1 {
                    lemma_row_bounds(m, i, r + 1);
                    law_rows_cover_line(m, i, r + 1);
                }
            }
            let to: usize = if broken {
                if len - c > self.wrap_width {
                    c + self.wrap_width
                } else {
                    len
                }
            } else if self.mode == WrapMode::Clip && self.width < len {
                self.width
            } else {
                len
            };
            let ghost from = c as int;
            let mut row = RowBuilder::new();
            let mut last: Option<Style> = None;
            assert(to == m.row_to(i, r as int));
            assert(m.line_glyphs(i).subrange(from, from) =~= Seq::<Glyph>::empty());
            while c < to
                invariant
                    self.inv(),
                    m == self@,
                    i == idx,
                    idx < m.lines.len(),
                    text@ == m.lines[i],
                    0 <= from <= c <= to <= text@.len(),
                    vstd::std_specs::iter::IteratorSpec::remaining(&it) == text@.skip(c as int),
                    row.wf(),
                    row@ == m.line_glyphs(i).subrange(from, c as int),
                    last == (if c == from {
                        None
                    } else {
                        Some(m.styles[i][c - 1])
                    }),
                decreases to - c,
            {
                let style: Style = self.char_style(idx, c);
                let ghost g = m.line_glyphs(i);
                if let Some(ch) = it.next() {
                    let joined: bool = match last {
                        Some(before) => before == style,
                        None => false,
                    };
                    proof {
                        assert(text@.skip(c as int)[0] == text@[c as int]);
                        assert(text@.skip(c as int).drop_first() =~= text@.skip(c + 1));
                        assert(g.subrange(from, c + 1) =~= g.subrange(from, c as int).push(
                            g[c as int],
                        ));
                    }
                    row.push(ch, style, joined, Ghost(0));
                }
                last = Some(style);
                c = c + 1;
            }
            let mut line = row.finish();
            assert(line@ == m.row_runs(i, r as int));
            if let Some(marker) = self.marker {
                if self.wrap_width < self.width && r + 1 < rows {
                    let mut text = String::new();
                    text.push(marker.glyph);
                    let ghost runs = line@;
                    line.spans.push(Span::styled(text, marker.style));
                    assert(text@ =~= seq![marker.glyph]);
                    assert(line@ =~= m.shown_row(i, r as int));
                }
            }
            out.push(line);
            r = r + 1;
            left = left - 1;
        }
    }

    /// The style of character `c` of line `idx`.
    fn char_style(&self, idx: usize, c: usize) -> (r: Style)
        requires
            idx < self@.lines.len(),
            c < self@.lines[idx as int].len(),
        ensures
            r == self@.styles[idx as int][c as int],
    {
        proof {
            use_type_invariant(self);
        }
        match &self.line_styles {
            None => {
                proof {
                    assert(self@.styles[idx as int] == repeated(
                        plain_style(),
                        self@.lines[idx as int].len(),
                    ));
                }
                Style::default()
            },
            Some(all) => style_at(&all[idx], c, Ghost(self@.styles[idx as int])),
        }
    }

    // -----------------------------------------------------------------------
    // Positions
    // -----------------------------------------------------------------------

    /// The row that a position falls on and the column in it. A position outside
    /// the text is taken for the nearest one in it.
    pub fn textpos_to_row_col(&self, pos: TextPos) -> (r: (u32, usize))
        ensures
            (r.0 as int, r.1 as int) == self@.place_of(pos),
    {
        proof {
            use_type_invariant(self);
            lemma_row_in_line(self@, pos);
            lemma_rows_before(
                self@,
                self@.clamped_line(pos),
                self@.lines.len() as int,
            );
        }
        let count: usize = self.line_count();
        let line: usize = if pos.line < count {
            pos.line
        } else {
            count - 1
        };
        let len: usize = self.line_char_len(line);
        let col: usize = if pos.col < len {
            pos.col
        } else {
            len
        };
        if self.mode == WrapMode::Clip || self.wrap_width == 0 {
            proof {
                let r = self@.row_in_line(pos);
                let w = self@.wrap_width();
                assert(r * w == 0) by (nonlinear_arith)
                    requires
                        r == 0,
                ;
            }
            return (self.rows.cum[line], col);
        }
        let rows_in_line: usize = wrapped_row_count(len, self.wrap_width);
        let full_rows: usize = col / self.wrap_width;
        let row_in_line: usize = if full_rows < rows_in_line {
            full_rows
        } else {
            rows_in_line - 1
        };
        (self.rows.cum[line] + row_in_line as u32, col - row_in_line * self.wrap_width)
    }

    /// The line that `row` belongs to and the row's number within it.
    pub(crate) fn locate(&self, row: u32) -> (r: (usize, u32))
        ensures
            r.0 == self@.line_at(row as int),
            r.0 < self@.lines.len(),
            r.1 == row - self@.rows_before(self@.line_at(row as int)),
    {
        proof {
            use_type_invariant(self);
        }
        self.rows.locate(row, Ghost(self@))
    }

    /// The position that column `col` of row `row` stands for: the end of its
    /// line for a column past it, so `usize::MAX` means the end of the line.
    pub fn row_col_to_textpos(&self, row: u32, col: usize) -> (r: TextPos)
        ensures
            r == self@.pos_at(row as int, col as int),
            self@.has_pos(r),
    {
        proof {
            use_type_invariant(self);
            lemma_row_line(self@, row as int);
        }
        let ghost m = self@;
        let (line, row_in_line) = self.rows.locate(row, Ghost(m));
        let len: usize = self.line_char_len(line);
        assert(row_in_line * self.wrap_width >= 0) by (nonlinear_arith);
        let end: usize = match (row_in_line as usize).checked_mul(self.wrap_width) {
            Some(base) => match base.checked_add(col) {
                Some(end) => end,
                None => len,
            },
            None => len,
        };
        TextPos::new(
            line,
            if end < len {
                end
            } else {
                len
            },
        )
    }
}

/// The width that lines are broken at (see [`effective_width`]).
fn effective_wrap_width(width: usize, mode: WrapMode, has_marker: bool) -> (r: usize)
    ensures
        r == effective_width(width as int, mode, has_marker),
{
    if has_marker && mode == WrapMode::Wrap && width >= 2 {
        width - 1
    } else {
        width
    }
}

/// The shared copy that `Arc::<str>::from` makes of a string: it holds the same
/// characters.
#[verifier::external_body]
fn shared_text(s: String) -> (r: Arc<str>)
    ensures
        r@ == s@,
{
    Arc::from(s)
}

/// `Arc::ptr_eq`: two handles to one allocation hold the same text. Whether two
/// handles share an allocation is not a matter of what they hold, so nothing is
/// said of when the answer is yes.
#[verifier::external_body]
fn same_allocation(a: &Arc<str>, b: &Arc<str>) -> (r: bool)
    ensures
        r ==> a@ == b@,
{
    Arc::ptr_eq(a, b)
}

// ---------------------------------------------------------------------------
// Markers
// ---------------------------------------------------------------------------

/// The marker that is used unless another is asked for: a dim, dark grey return
/// arrow.
pub open spec fn default_marker() -> WrapMarker {
    WrapMarker {
        glyph: '\u{21b5}',
        style: Style {
            fg: Some(Color::DarkGray),
            bg: None,
            underline_color: None,
            add_modifier: DIM,
            sub_modifier: 0,
        },
    }
}

impl Default for WrapMarker {
    /// A dim, dark grey return arrow.
    fn default() -> (r: Self)
        ensures
            r == default_marker(),
    {
        WrapMarker::builder().build()
    }
}

impl WrapMarker {
    /// A builder that starts from the default marker.
    pub fn builder() -> (r: WraperMarkerBuilder)
        ensures
            r.glyph == default_marker().glyph,
            r.style == default_marker().style,
    {
        WraperMarkerBuilder {
            glyph: '\u{21b5}',
            style: Style {
                fg: Some(Color::DarkGray),
                bg: None,
                underline_color: None,
                add_modifier: DIM,
                sub_modifier: 0,
            },
        }
    }
}

/// Builds a [`WrapMarker`].
#[derive(Clone, Copy, Debug, PartialEq, Eq, Structural)]
pub struct WraperMarkerBuilder {
    /// The character drawn in the reserved column, one cell wide.
    pub glyph: char,
    /// The style it is drawn with.
    pub style: Style,
}

impl WraperMarkerBuilder {
    /// The marker.
    pub fn build(self) -> (r: WrapMarker)
        ensures
            r == (WrapMarker { glyph: self.glyph, style: self.style }),
    {
        WrapMarker { glyph: self.glyph, style: self.style }
    }

    /// Sets the style.
    pub fn style(self, style: Style) -> (r: WraperMarkerBuilder)
        ensures
            r == (WraperMarkerBuilder { glyph: self.glyph, style }),
    {
        WraperMarkerBuilder { glyph: self.glyph, style }
    }

    /// Sets the character.
    pub fn glyph(self, glyph: char) -> (r: WraperMarkerBuilder)
        ensures
            r == (WraperMarkerBuilder { glyph, style: self.style }),
    {
        WraperMarkerBuilder { glyph, style: self.style }
    }
}

// ---------------------------------------------------------------------------
// Laws
// ---------------------------------------------------------------------------

/// A cache that still fits shows just what a new one would, and one that was built
/// for a text and a layout fits them.
pub proof fn law_fresh_cache_is_as_good_as_new(
    cache: PanelWrap,
    width: usize,
    mode: WrapMode,
    marker: Option<WrapMarker>,
)
    requires
        cache.inv(),
    ensures
        is_fresh(Some(cache), true, TextKind::Plain, width, mode, marker) ==> cache@ == plain_panel(
            cache@.raw,
            width,
            mode,
            marker,
        ),
        is_fresh(Some(cache), true, TextKind::Ansi, width, mode, marker) ==> cache@ == ansi_panel(
            cache@.raw,
            width,
            mode,
            marker,
        ),
        is_fresh(Some(cache), true, cache@.kind, cache@.width, cache@.mode, cache@.marker),
        !is_fresh(Some(cache), false, cache@.kind, width, mode, marker),
        !is_fresh(None, true, cache@.kind, width, mode, marker),
{
}

/// A panel of a text with escape sequences has a line for each that is read from
/// it, is laid out as asked for, and knows the text it was made of.
pub proof fn law_escaped_text_is_the_lines(
    raw: Seq<char>,
    width: usize,
    mode: WrapMode,
    marker: Option<WrapMarker>,
    i: int,
)
    requires
        0 <= i < ansi_lines(raw).len(),
    ensures
        ({
            let m = ansi_panel(raw, width, mode, marker);
            let text = row_text(ansi_lines(raw)[i]);
            let returned = text.len() > 0 && text.last() == '\r';
            &&& m.width == width && m.mode == mode && m.marker == marker
            &&& m.kind == TextKind::Ansi && m.raw == raw
            &&& m.lines.len() == ansi_lines(raw).len()
            &&& returned ==> m.lines[i].push('\r') == text
            &&& !returned ==> m.lines[i] == text
        }),
{
    law_read_rows_are_the_lines(TextKind::Ansi, raw, ansi_lines(raw), width, mode, marker, i);
}

} // verus!
