//! A text panel with several selected regions.
//!
//! A [`MultiSelectPanel`] owns its text's wrap cache, its scroll offset and its
//! selection: one active region, which the mouse drags and the keyboard extends,
//! and any number of regions that were set aside. A drag held past the panel's
//! top or bottom edge keeps scrolling. What concerns several panels, such as
//! copying across them, is left to the application.

use std::sync::Arc;

use vstd::prelude::*;

use crate::geometry::{cell_numbers, Rect};
use crate::panel_model::{
    law_cell_found_again, law_cell_past_an_end_stands_for_the_end,
    law_line_end_is_on_its_last_row, law_rows_are_in_text_order, lemma_line_at,
    lemma_row_bounds, lemma_row_in_line, lemma_row_line, lemma_rows_before, plain_panel,
    styled_lines_panel, PanelModel, TextPos, WrapMarker, WrapMode,
};
use crate::posset::PosSet;
use crate::scrollbar::{render_scrollbar, scroll_for_track_row, thumb, track_scroll, Thumb};
use crate::selection::{
    cells_fit, covers, excluded, extract_text, first_of, highlight_cells, law_highlight_fits,
    lies_between, nearest_col, nearest_row, ordered, point_to_textpos, selected_text,
    selection_cells,
};
use crate::style::{line_models, Line, SpanModel};
use crate::text::{greatest, is_blank, join, join_strings, least, texts};
use crate::wrapcache::{ansi_panel, PanelWrap};

verus! {

// ---------------------------------------------------------------------------
// Types
// ---------------------------------------------------------------------------

/// Which way the keyboard moves the live end of the active region.
#[derive(Clone, Copy, Debug, PartialEq, Eq, Structural)]
pub enum Motion {
    /// One character to the left, to the line before at the start of a line.
    Left,
    /// One character to the right, to the next line at the end of a line.
    Right,
    /// One line up, in the same column if the line is long enough.
    Up,
    /// One line down, in the same column if the line is long enough.
    Down,
}

/// Which way a drag that is held past an edge scrolls.
#[derive(Clone, Copy, Debug, PartialEq, Eq, Structural)]
pub enum AutoScroll {
    /// Up, for a drag above the panel.
    Up,
    /// Down, for a drag below the panel.
    Down,
}

/// A selected region: where it began and its live end.
#[derive(Clone, Copy, Debug, PartialEq, Eq, Structural)]
pub struct Region {
    /// Where the region began.
    pub anchor: TextPos,
    /// Its live end.
    pub cursor: TextPos,
}

impl Region {
    /// The earlier of the region's ends.
    pub open spec fn starts_at(self) -> TextPos {
        first_of(self.anchor, self.cursor)
    }

    /// The earlier of the region's ends.
    pub fn start(&self) -> (r: TextPos)
        ensures
            r == self.starts_at(),
    {
        ordered(self.anchor, self.cursor).0
    }
}

// ---------------------------------------------------------------------------
// Model
// ---------------------------------------------------------------------------

/// What a [`MultiSelectPanel`] holds.
pub struct PanelState {
    /// The text and its layout, once there is one.
    pub wrap: Option<PanelModel>,
    /// The mode that the next text is laid out in.
    pub mode: WrapMode,
    /// The marker that the next text is laid out with.
    pub marker: Option<WrapMarker>,
    /// The row of the text at the top of the panel.
    pub scroll: u16,
    /// The region that is being dragged or extended.
    pub active: Option<Region>,
    /// The regions that were set aside, in that order.
    pub extras: Seq<Region>,
    /// Where a drag that is held past an edge scrolls.
    pub pending: Option<AutoScroll>,
}

/// The largest scroll offset for `total` rows in a window of `height` rows.
pub open spec fn scroll_limit(total: int, height: u16) -> int {
    greatest(least(total, u16::MAX as int) - height, 0)
}

/// The length of line `i`, none for a line that there is not.
pub open spec fn len_of(m: PanelModel, i: int) -> int {
    if 0 <= i < m.lines.len() {
        m.lines[i].len() as int
    } else {
        0
    }
}

/// The last column of line `i`, or the first of an empty one.
pub open spec fn last_col(m: PanelModel, i: int) -> int {
    greatest(len_of(m, i) - 1, 0)
}

/// Where a motion takes a position.
pub open spec fn moved(m: PanelModel, pos: TextPos, motion: Motion) -> TextPos {
    match motion {
        Motion::Left => if pos.col > 0 {
            TextPos { line: pos.line, col: (pos.col - 1) as usize }
        } else if pos.line > 0 {
            TextPos { line: (pos.line - 1) as usize, col: last_col(m, pos.line - 1) as usize }
        } else {
            pos
        },
        Motion::Right => if pos.col + 1 < len_of(m, pos.line as int) {
            TextPos { line: pos.line, col: (pos.col + 1) as usize }
        } else if pos.line + 1 < m.lines.len() {
            TextPos { line: (pos.line + 1) as usize, col: 0 }
        } else {
            pos
        },
        Motion::Up => if pos.line > 0 {
            TextPos {
                line: (pos.line - 1) as usize,
                col: least(pos.col as int, last_col(m, pos.line - 1)) as usize,
            }
        } else {
            pos
        },
        Motion::Down => if pos.line + 1 < m.lines.len() {
            TextPos {
                line: (pos.line + 1) as usize,
                col: least(pos.col as int, last_col(m, pos.line + 1)) as usize,
            }
        } else {
            pos
        },
    }
}

/// The regions in the order of where they start; those that start at one place
/// keep their order.
pub open spec fn by_start(regions: Seq<Region>) -> Seq<Region>
    decreases regions.len(),
{
    if regions.len() == 0 {
        regions
    } else {
        placed_by_start(by_start(regions.drop_last()), regions.last())
    }
}

/// `region` put into `regions` behind the last one that does not start later.
pub open spec fn placed_by_start(regions: Seq<Region>, region: Region) -> Seq<Region>
    decreases regions.len(),
{
    if regions.len() > 0 && region.starts_at().before(regions.last().starts_at()) {
        placed_by_start(regions.drop_last(), region).push(regions.last())
    } else {
        regions.push(region)
    }
}

/// The texts of the regions that are not blank.
pub open spec fn region_texts(m: PanelModel, regions: Seq<Region>, exclude: Set<TextPos>) -> Seq<
    Seq<char>,
>
    decreases regions.len(),
{
    if regions.len() == 0 {
        Seq::<Seq<char>>::empty()
    } else {
        let before = region_texts(m, regions.drop_last(), exclude);
        let last = regions.last();
        let text = selected_text(m, last.anchor, last.cursor, exclude);
        if is_blank(text) {
            before
        } else {
            before.push(text)
        }
    }
}

/// The cells that regions cover, region by region.
pub open spec fn region_cells(
    m: PanelModel,
    regions: Seq<Region>,
    area: Rect,
    scroll: int,
) -> Seq<(int, int, int)>
    decreases regions.len(),
{
    if regions.len() == 0 {
        Seq::<(int, int, int)>::empty()
    } else {
        let last = regions.last();
        region_cells(m, regions.drop_last(), area, scroll) + selection_cells(
            m,
            last.anchor,
            last.cursor,
            area,
            scroll,
        )
    }
}

impl PanelState {
    /// The number of rows of the text, none without a text.
    pub open spec fn total_rows(self) -> int {
        match self.wrap {
            Some(m) => m.total_rows(),
            None => 0,
        }
    }

    /// The largest scroll offset in a window of `height` rows.
    pub open spec fn max_scroll(self, height: u16) -> int {
        scroll_limit(self.total_rows(), height)
    }

    /// All regions: those set aside, then the active one.
    pub open spec fn regions(self) -> Seq<Region> {
        match self.active {
            Some(region) => self.extras.push(region),
            None => self.extras,
        }
    }

    /// The state with another live end of the active region.
    pub open spec fn with_cursor(self, pos: TextPos) -> PanelState {
        match self.active {
            Some(region) => PanelState {
                active: Some(Region { anchor: region.anchor, cursor: pos }),
                ..self
            },
            None => self,
        }
    }

    /// The position under a terminal cell, given as column and row.
    pub open spec fn pos_under(self, area: Rect, point: (u16, u16)) -> TextPos {
        self.wrap->0.pos_at(
            self.scroll + nearest_row(area, point.1),
            nearest_col(area, point.0),
        )
    }

    /// Scrolled by `delta` rows, as far as a window of `height` rows goes.
    pub open spec fn scrolled_by(self, delta: int, height: u16) -> PanelState {
        PanelState {
            scroll: greatest(0, least(self.scroll + delta, self.max_scroll(height))) as u16,
            ..self
        }
    }

    /// With a new active region that begins and ends under a terminal cell.
    pub open spec fn begun(self, area: Rect, point: (u16, u16)) -> PanelState {
        if self.wrap is None {
            self
        } else {
            let pos = self.pos_under(area, point);
            PanelState {
                active: Some(Region { anchor: pos, cursor: pos }),
                pending: None,
                ..self
            }
        }
    }

    /// With the active region set aside.
    pub open spec fn set_aside(self) -> PanelState {
        match self.active {
            Some(region) => PanelState {
                active: None,
                extras: self.extras.push(region),
                pending: None,
                ..self
            },
            None => self,
        }
    }

    /// Without a region.
    pub open spec fn cleared(self) -> PanelState {
        PanelState { active: None, extras: Seq::<Region>::empty(), pending: None, ..self }
    }

    /// The scroll offset after one step of scrolling by itself.
    pub open spec fn ticked_scroll(self, area: Rect, dir: AutoScroll) -> int {
        match dir {
            AutoScroll::Up => greatest(self.scroll - 1, 0),
            AutoScroll::Down => least(self.scroll + 1, self.max_scroll(area.height)),
        }
    }

    /// Where the live end goes with one step of scrolling by itself: to the line
    /// at the edge, or to the first or the last row once the text's own end is
    /// reached.
    pub open spec fn ticked_pos(self, area: Rect, dir: AutoScroll) -> TextPos {
        let m = self.wrap->0;
        let next = self.ticked_scroll(area, dir);
        match dir {
            AutoScroll::Up => if next == self.scroll {
                m.pos_at(0, 0)
            } else {
                m.pos_at(next, 0)
            },
            AutoScroll::Down => if next == self.scroll {
                m.pos_at(m.total_rows() - 1, usize::MAX as int)
            } else {
                m.pos_at(greatest(next + area.height - 1, 0), usize::MAX as int)
            },
        }
    }

    /// The state after one step of scrolling by itself.
    pub open spec fn ticked(self, area: Rect) -> PanelState {
        match self.pending {
            None => self,
            Some(dir) => if self.active is None {
                PanelState { pending: None, ..self }
            } else {
                let scrolled = PanelState {
                    scroll: self.ticked_scroll(area, dir) as u16,
                    ..self
                };
                if self.wrap is None {
                    scrolled
                } else {
                    scrolled.with_cursor(self.ticked_pos(area, dir))
                }
            },
        }
    }

    /// The state after a drag to a terminal cell.
    pub open spec fn dragged(self, area: Rect, point: (u16, u16)) -> PanelState {
        if self.active is None {
            self
        } else if area.height > 0 && point.1 < area.y {
            PanelState { pending: Some(AutoScroll::Up), ..self }.ticked(area)
        } else if area.height > 0 && point.1 >= least(area.y + area.height, u16::MAX as int) {
            PanelState { pending: Some(AutoScroll::Down), ..self }.ticked(area)
        } else {
            let inside = PanelState { pending: None, ..self };
            if self.wrap is None {
                inside
            } else {
                inside.with_cursor(self.pos_under(area, point))
            }
        }
    }

    /// The scroll offset that brings the live end of the active region into a
    /// window of `height` rows, as far down as the panel scrolls.
    pub open spec fn scroll_to_cursor(self, height: u16) -> int {
        let row = self.wrap->0.place_of(self.active->0.cursor).0;
        let wanted = if row < self.scroll {
            row
        } else if row >= self.scroll + height {
            row + 1 - height
        } else {
            self.scroll as int
        };
        least(wanted, self.max_scroll(height))
    }

    /// The state after the keyboard moved the live end of the active region.
    pub open spec fn extended(self, motion: Motion, area: Rect) -> PanelState {
        if self.active is None || self.wrap is None {
            self
        } else {
            let next = self.with_cursor(moved(self.wrap->0, self.active->0.cursor, motion));
            if area.height == 0 {
                next
            } else {
                PanelState { scroll: next.scroll_to_cursor(area.height) as u16, ..next }
            }
        }
    }

    /// The texts of all regions in the order of where they start.
    pub open spec fn parts(self, exclude: Set<TextPos>) -> Seq<Seq<char>> {
        match self.wrap {
            Some(m) => region_texts(m, by_start(self.regions()), exclude),
            None => Seq::<Seq<char>>::empty(),
        }
    }

    /// The cells of `area` that the regions cover.
    pub open spec fn cells(self, area: Rect) -> Seq<(int, int, int)> {
        match self.wrap {
            Some(m) => region_cells(m, self.regions(), area, self.scroll as int),
            None => Seq::<(int, int, int)>::empty(),
        }
    }
}

// ---------------------------------------------------------------------------
// The panel
// ---------------------------------------------------------------------------

/// A scrollable text panel with one or more selected regions.
pub struct MultiSelectPanel {
    wrap: Option<PanelWrap>,
    mode: WrapMode,
    marker: Option<WrapMarker>,
    scroll: u16,
    active: Option<Region>,
    extras: Vec<Region>,
    pending_autoscroll: Option<AutoScroll>,
}

impl View for MultiSelectPanel {
    type V = PanelState;

    closed spec fn view(&self) -> PanelState {
        PanelState {
            wrap: match self.wrap {
                Some(w) => Some(w@),
                None => None,
            },
            mode: self.mode,
            marker: self.marker,
            scroll: self.scroll,
            active: self.active,
            extras: self.extras@,
            pending: self.pending_autoscroll,
        }
    }
}

/// A panel without a text and without a selection, scrolled to the top.
pub open spec fn empty_panel() -> PanelState {
    PanelState {
        wrap: None,
        mode: WrapMode::Wrap,
        marker: None,
        scroll: 0,
        active: None,
        extras: Seq::<Region>::empty(),
        pending: None,
    }
}

impl Default for MultiSelectPanel {
    /// A panel without a text and without a selection, scrolled to the top.
    fn default() -> (r: Self)
        ensures
            r@ == empty_panel(),
    {
        MultiSelectPanel::new()
    }
}

impl MultiSelectPanel {
    /// A panel without a text and without a selection, scrolled to the top.
    pub fn new() -> (r: Self)
        ensures
            r@ == empty_panel(),
    {
        let extras: Vec<Region> = Vec::new();
        MultiSelectPanel {
            wrap: None,
            mode: WrapMode::Wrap,
            marker: None,
            scroll: 0,
            active: None,
            extras,
            pending_autoscroll: None,
        }
    }

    // -----------------------------------------------------------------------
    // Layout
    // -----------------------------------------------------------------------

    /// Chooses how long lines are laid out, from the next text on.
    pub fn set_wrap_mode(&mut self, mode: WrapMode)
        ensures
            final(self)@ == (PanelState { mode, ..old(self)@ }),
    {
        self.mode = mode;
    }

    /// How long lines are laid out.
    pub fn wrap_mode(&self) -> (r: WrapMode)
        ensures
            r == self@.mode,
    {
        self.mode
    }

    /// Chooses the marker of rows that are continued below, from the next text
    /// on.
    pub fn set_wrap_marker(&mut self, marker: Option<WrapMarker>)
        ensures
            final(self)@ == (PanelState { marker, ..old(self)@ }),
    {
        self.marker = marker;
    }

    /// The marker of rows that are continued below.
    pub fn wrap_marker(&self) -> (r: Option<WrapMarker>)
        ensures
            r == self@.marker,
    {
        self.marker
    }

    // -----------------------------------------------------------------------
    // Text
    // -----------------------------------------------------------------------

    /// Sets the text and the panel's width. Builds nothing anew when neither
    /// these nor the layout changed, so it may be called for every frame. The
    /// selection stays.
    pub fn set_content(&mut self, text: Arc<str>, width: usize)
        requires
            plain_panel(text@, width, old(self)@.mode, old(self)@.marker).total_rows() <= u32::MAX,
        ensures
            final(self)@ == (PanelState {
                wrap: Some(plain_panel(text@, width, old(self)@.mode, old(self)@.marker)),
                ..old(self)@
            }),
    {
        PanelWrap::rebuild_if_needed_marker(
            &mut self.wrap,
            &text,
            width,
            self.mode,
            self.marker,
        );
    }

    /// Sets a text with escape sequences. Rows keep its colours; what is
    /// selected and copied is the text without the sequences.
    pub fn set_ansi_content(&mut self, text: Arc<str>, width: usize)
        requires
            text@.len() < u32::MAX,
        ensures
            final(self)@ == (PanelState {
                wrap: Some(ansi_panel(text@, width, old(self)@.mode, old(self)@.marker)),
                ..old(self)@
            }),
    {
        PanelWrap::rebuild_if_needed_ansi_marker(
            &mut self.wrap,
            &text,
            width,
            self.mode,
            self.marker,
        );
    }

    /// Sets styled lines. What is selected and copied is their plain text. Builds
    /// anew at every call.
    pub fn set_styled_content(&mut self, lines: &[Line], width: usize)
        requires
            styled_lines_panel(
                line_models(lines@),
                width,
                old(self)@.mode,
                old(self)@.marker,
            ).total_rows() <= u32::MAX,
        ensures
            final(self)@ == (PanelState {
                wrap: Some(
                    styled_lines_panel(
                        line_models(lines@),
                        width,
                        old(self)@.mode,
                        old(self)@.marker,
                    ),
                ),
                ..old(self)@
            }),
    {
        self.wrap = Some(
            PanelWrap::build_styled_with_marker(lines, width, self.mode, self.marker),
        );
    }

    /// Whether a text was set.
    pub fn has_content(&self) -> (r: bool)
        ensures
            r == (self@.wrap is Some),
    {
        self.wrap.is_some()
    }

    /// The whole text, for copying the panel without a selection.
    pub fn whole_text(&self) -> (r: Option<&str>)
        ensures
            match r {
                Some(text) => self@.wrap matches Some(m) && text@ == m.source,
                None => self@.wrap is None,
            },
    {
        match &self.wrap {
            Some(wrap) => Some(wrap.source()),
            None => None,
        }
    }

    /// The wrap cache, for questions about the layout on screen.
    pub fn wrap(&self) -> (r: Option<&PanelWrap>)
        ensures
            match r {
                Some(wrap) => self@.wrap == Some(wrap@),
                None => self@.wrap is None,
            },
    {
        match &self.wrap {
            Some(wrap) => Some(wrap),
            None => None,
        }
    }

    // -----------------------------------------------------------------------
    // Scrolling
    // -----------------------------------------------------------------------

    /// The number of rows of the text.
    pub fn total_rows(&self) -> (r: u32)
        ensures
            r == self@.total_rows(),
    {
        match &self.wrap {
            Some(wrap) => wrap.total_rows(),
            None => 0,
        }
    }

    /// The largest scroll offset in a window of `viewport_height` rows.
    pub fn max_scroll(&self, viewport_height: u16) -> (r: u16)
        ensures
            r == self@.max_scroll(viewport_height),
    {
        let rows: u32 = self.total_rows();
        let total: u16 = if rows < 0xffff {
            rows as u16
        } else {
            0xffff
        };
        total.saturating_sub(viewport_height)
    }

    /// The row of the text at the top of the panel.
    pub fn scroll(&self) -> (r: u16)
        ensures
            r == self@.scroll,
    {
        self.scroll
    }

    /// Sets the scroll offset as it is; see [`MultiSelectPanel::clamp_scroll`].
    pub fn set_scroll(&mut self, scroll: u16)
        ensures
            final(self)@ == (PanelState { scroll, ..old(self)@ }),
    {
        self.scroll = scroll;
    }

    /// Moves the scroll offset by `delta` rows, upwards where it is negative, but
    /// not past either end.
    pub fn scroll_by(&mut self, delta: i32, viewport_height: u16)
        ensures
            final(self)@ == old(self)@.scrolled_by(delta as int, viewport_height),
    {
        let max: u16 = self.max_scroll(viewport_height);
        let next: i64 = self.scroll as i64 + delta as i64;
        self.scroll = if next < 0 {
            0
        } else if next < max as i64 {
            next as u16
        } else {
            max
        };
    }

    /// Brings the scroll offset into range for a window of `viewport_height` rows
    /// and gives its largest value.
    pub fn clamp_scroll(&mut self, viewport_height: u16) -> (r: u16)
        ensures
            r == old(self)@.max_scroll(viewport_height),
            final(self)@ == old(self)@.scrolled_by(0, viewport_height),
    {
        let max: u16 = self.max_scroll(viewport_height);
        if self.scroll > max {
            self.scroll = max;
        }
        max
    }

    /// Scrolls to where a click on row `row` of the scrollbar's `track` points.
    /// The track is as high as the panel.
    pub fn scroll_to_track_row(&mut self, track: Rect, row: u16)
        ensures
            final(self)@ == (PanelState {
                scroll: track_scroll(
                    track,
                    row,
                    old(self)@.max_scroll(track.height) as u16,
                ) as u16,
                ..old(self)@
            }),
    {
        let max: u16 = self.max_scroll(track.height);
        self.set_scroll(scroll_for_track_row(track, row, max));
    }

    /// The thumb to draw in the panel's scrollbar column `area`, which is as high
    /// as the panel; none where all rows are in sight.
    pub fn render_scrollbar(&self, area: Rect) -> (r: Option<Thumb>)
        ensures
            r == thumb(
                area,
                self@.total_rows(),
                area.height as int,
                self@.scroll as usize,
            ),
    {
        render_scrollbar(
            area,
            self.total_rows() as usize,
            area.height as usize,
            self.scroll as usize,
        )
    }

    // -----------------------------------------------------------------------
    // Showing
    // -----------------------------------------------------------------------

    /// The rows in sight in a window of `height` rows.
    pub fn visible_rows(&self, height: u16) -> (r: Vec<Line>)
        ensures
            line_models(r@) == (match self@.wrap {
                Some(m) => m.window(self@.scroll as int, height as int),
                None => Seq::<Seq<SpanModel>>::empty(),
            }),
    {
        match &self.wrap {
            Some(wrap) => wrap.visible_window(self.scroll, height),
            None => {
                let none: Vec<Line> = Vec::new();
                assert(line_models(none@) =~= Seq::<Seq<SpanModel>>::empty());
                none
            },
        }
    }
}

impl MultiSelectPanel {
    /// The cells of `area` that the regions cover, region by region: those set
    /// aside first, then the active one (see [`highlight_cells`]).
    pub fn highlight_regions(&self, area: Rect) -> (r: Vec<(u16, u16, u16)>)
        requires
            cells_fit(self@.cells(area)),
        ensures
            cell_numbers(r@) == self@.cells(area),
    {
        let mut cells: Vec<(u16, u16, u16)> = Vec::new();
        assert(cell_numbers(cells@) =~= Seq::<(int, int, int)>::empty());
        let wrap = match &self.wrap {
            Some(wrap) => wrap,
            None => {
                return cells;
            },
        };
        let regions = self.regions();
        let ghost all = self@.cells(area);
        let ghost m = wrap@;
        let mut i: usize = 0;
        assert(regions@.take(0) =~= Seq::<Region>::empty());
        while i < regions.len()
            invariant
                i <= regions.len(),
                m == wrap@,
                all == region_cells(m, regions@, area, self.scroll as int),
                cells_fit(all),
                cell_numbers(cells@) == region_cells(
                    m,
                    regions@.take(i as int),
                    area,
                    self.scroll as int,
                ),
            decreases regions.len() - i,
        {
            let region = regions[i];
            let ghost before = cell_numbers(cells@);
            proof {
                assert(regions@.take(i + 1).drop_last() =~= regions@.take(i as int));
                assert(regions@.take(i + 1).last() == region);
                lemma_region_cells_prefix(m, regions@, area, self.scroll as int, i + 1);
                let more = region_cells(m, regions@.take(i + 1), area, self.scroll as int);
                let own = selection_cells(
                    m,
                    region.anchor,
                    region.cursor,
                    area,
                    self.scroll as int,
                );
                assert forall|k: int| 0 <= k < own.len() implies (#[trigger] own[k]).0 <= u16::MAX
                    && own[k].2 <= u16::MAX by {
                    assert(own[k] == more[before.len() + k]);
                    assert(all.take(more.len() as int)[before.len() + k] == own[k]);
                    assert(all[before.len() + k] == own[k]);
                }
            }
            let own = highlight_cells(region.anchor, region.cursor, wrap, area, self.scroll);
            push_cells(&mut cells, &own);
            i = i + 1;
        }
        assert(regions@.take(regions@.len() as int) =~= regions@);
        cells
    }

    // -----------------------------------------------------------------------
    // Selecting with the mouse
    // -----------------------------------------------------------------------

    /// Begins a new active region at the terminal cell `point`, given as column
    /// and row. Regions that were set aside stay. Does nothing without a text.
    pub fn begin(&mut self, area: Rect, point: (u16, u16))
        ensures
            final(self)@ == old(self)@.begun(area, point),
    {
        let pos = match &self.wrap {
            Some(wrap) => point_to_textpos(point, area, self.scroll, wrap),
            None => {
                return ;
            },
        };
        self.pending_autoscroll = None;
        self.active = Some(Region { anchor: pos, cursor: pos });
    }

    /// Drags the live end of the active region to the terminal cell `point`. A
    /// drag past the top or the bottom edge begins to scroll that way and takes
    /// one step at once; [`MultiSelectPanel::autoscroll_tick`] takes the next.
    /// Does nothing without an active region.
    pub fn drag(&mut self, area: Rect, point: (u16, u16))
        ensures
            final(self)@ == old(self)@.dragged(area, point),
    {
        if self.active.is_none() {
            return ;
        }
        let (_, row) = point;
        if area.height > 0 && row < area.y {
            self.pending_autoscroll = Some(AutoScroll::Up);
            self.autoscroll_tick(area);
            return ;
        }
        if area.height > 0 && row >= area.y.saturating_add(area.height) {
            self.pending_autoscroll = Some(AutoScroll::Down);
            self.autoscroll_tick(area);
            return ;
        }
        self.pending_autoscroll = None;
        let pos = match &self.wrap {
            Some(wrap) => point_to_textpos(point, area, self.scroll, wrap),
            None => {
                return ;
            },
        };
        self.set_cursor(pos);
    }

    /// Ends a drag. The selection stays.
    pub fn end_drag(&mut self)
        ensures
            final(self)@ == (PanelState { pending: None, ..old(self)@ }),
    {
        self.pending_autoscroll = None;
    }

    /// Whether a drag is held past an edge.
    pub fn has_pending_autoscroll(&self) -> (r: bool)
        ensures
            r == (self@.pending is Some),
    {
        self.pending_autoscroll.is_some()
    }

    /// Has the next [`MultiSelectPanel::autoscroll_tick`] scroll, as though a
    /// drag were held past that edge.
    pub fn start_autoscroll(&mut self, dir: AutoScroll)
        ensures
            final(self)@ == (PanelState { pending: Some(dir), ..old(self)@ }),
    {
        self.pending_autoscroll = Some(dir);
    }

    /// One step of a drag that is held past an edge: scrolls by a row and takes
    /// the live end of the active region to the line that came into sight. Once
    /// the text's own end is reached, the live end goes to the very start of its
    /// first or the very end of its last line. Does nothing when no such drag is
    /// held.
    pub fn autoscroll_tick(&mut self, area: Rect)
        ensures
            final(self)@ == old(self)@.ticked(area),
    {
        let dir = match self.pending_autoscroll {
            Some(dir) => dir,
            None => {
                return ;
            },
        };
        if self.active.is_none() {
            self.pending_autoscroll = None;
            return ;
        }
        let max_scroll: u16 = self.max_scroll(area.height);
        let next: u16 = match dir {
            AutoScroll::Up => self.scroll.saturating_sub(1),
            AutoScroll::Down => if self.scroll < max_scroll {
                self.scroll + 1
            } else {
                max_scroll
            },
        };
        let at_end: bool = next == self.scroll;
        self.scroll = next;
        let pos = match &self.wrap {
            Some(wrap) => match dir {
                AutoScroll::Up => wrap.row_col_to_textpos(
                    if at_end {
                        0
                    } else {
                        next as u32
                    },
                    0,
                ),
                AutoScroll::Down => wrap.row_col_to_textpos(
                    if at_end {
                        wrap.total_rows() - 1
                    } else {
                        (next as u32 + area.height as u32).saturating_sub(1)
                    },
                    usize::MAX,
                ),
            },
            None => {
                return ;
            },
        };
        self.set_cursor(pos);
    }

    /// Sets the live end of the active region, if there is one.
    fn set_cursor(&mut self, pos: TextPos)
        ensures
            final(self)@ == old(self)@.with_cursor(pos),
    {
        if let Some(region) = self.active {
            self.active = Some(Region { anchor: region.anchor, cursor: pos });
        }
    }

    // -----------------------------------------------------------------------
    // Selecting with the keyboard
    // -----------------------------------------------------------------------

    /// Moves the live end of the active region by one character or one line and
    /// scrolls so that it stays in sight. Does nothing without an active region
    /// or without a text.
    pub fn extend(&mut self, motion: Motion, area: Rect)
        ensures
            final(self)@ == old(self)@.extended(motion, area),
    {
        let region = match self.active {
            Some(region) => region,
            None => {
                return ;
            },
        };
        let pos = match &self.wrap {
            Some(wrap) => move_pos(wrap, region.cursor, motion),
            None => {
                return ;
            },
        };
        self.set_cursor(pos);
        self.scroll_cursor_into_view(area);
    }

    /// Scrolls so that the live end of the active region is in sight.
    fn scroll_cursor_into_view(&mut self, area: Rect)
        requires
            old(self)@.active is Some,
            old(self)@.wrap is Some,
        ensures
            final(self)@ == (if area.height == 0 {
                old(self)@
            } else {
                PanelState {
                    scroll: old(self)@.scroll_to_cursor(area.height) as u16,
                    ..old(self)@
                }
            }),
    {
        if area.height == 0 {
            return ;
        }
        let row: u32 = match (&self.wrap, self.active) {
            (Some(wrap), Some(region)) => {
                proof {
                    use_type_invariant(wrap);
                    lemma_row_in_line(wrap@, region.cursor);
                    lemma_rows_before(
                        wrap@,
                        wrap@.clamped_line(region.cursor),
                        wrap@.lines.len() as int,
                    );
                }
                wrap.textpos_to_row_col(region.cursor).0
            },
            _ => {
                return ;
            },
        };
        assert(row < u32::MAX);
        let max_scroll: u16 = self.max_scroll(area.height);
        let wanted: u32 = if row < self.scroll as u32 {
            row
        } else if row >= self.scroll as u32 + area.height as u32 {
            row + 1 - area.height as u32
        } else {
            self.scroll as u32
        };
        self.scroll = if wanted < max_scroll as u32 {
            wanted as u16
        } else {
            max_scroll
        };
    }

    // -----------------------------------------------------------------------
    // Regions
    // -----------------------------------------------------------------------

    /// Sets the active region aside, so that the next one to begin stands beside
    /// it. Does nothing without an active region.
    pub fn finalize_active(&mut self)
        ensures
            final(self)@ == old(self)@.set_aside(),
            final(self)@.regions() == old(self)@.regions(),
    {
        if let Some(region) = self.active {
            self.extras.push(region);
            self.active = None;
            self.pending_autoscroll = None;
        }
    }

    /// Drops all regions and stops scrolling.
    pub fn clear(&mut self)
        ensures
            final(self)@ == old(self)@.cleared(),
    {
        self.active = None;
        self.extras = Vec::new();
        self.pending_autoscroll = None;
    }

    /// Whether there is a region.
    pub fn has_selection(&self) -> (r: bool)
        ensures
            r == (self@.regions().len() > 0),
    {
        self.active.is_some() || self.extras.len() > 0
    }

    /// Where the active region began and its live end.
    pub fn active_selection(&self) -> (r: Option<(TextPos, TextPos)>)
        ensures
            r == (match self@.active {
                Some(region) => Some((region.anchor, region.cursor)),
                None => None,
            }),
    {
        match self.active {
            Some(region) => Some((region.anchor, region.cursor)),
            None => None,
        }
    }

    /// Replaces the active region.
    pub fn set_active_selection(&mut self, anchor: TextPos, cursor: TextPos)
        ensures
            final(self)@ == (PanelState {
                active: Some(Region { anchor, cursor }),
                ..old(self)@
            }),
    {
        self.active = Some(Region { anchor, cursor });
    }

    /// The regions that were set aside, in that order.
    pub fn finalized_selections(&self) -> (r: Vec<(TextPos, TextPos)>)
        ensures
            r@ == Seq::new(
                self@.extras.len(),
                |i: int| (self@.extras[i].anchor, self@.extras[i].cursor),
            ),
    {
        let mut out: Vec<(TextPos, TextPos)> = Vec::new();
        let mut i: usize = 0;
        while i < self.extras.len()
            invariant
                i <= self.extras.len(),
                out@.len() == i,
                forall|k: int|
                    0 <= k < i ==> #[trigger] out@[k] == (
                        self.extras@[k].anchor,
                        self.extras@[k].cursor,
                    ),
            decreases self.extras.len() - i,
        {
            out.push((self.extras[i].anchor, self.extras[i].cursor));
            i = i + 1;
        }
        assert(out@ =~= Seq::new(
            self@.extras.len(),
            |i: int| (self@.extras[i].anchor, self@.extras[i].cursor),
        ));
        out
    }

    /// Adds a region to those that were set aside.
    pub fn push_finalized(&mut self, anchor: TextPos, cursor: TextPos)
        ensures
            final(self)@ == (PanelState {
                extras: old(self)@.extras.push(Region { anchor, cursor }),
                ..old(self)@
            }),
    {
        self.extras.push(Region { anchor, cursor });
    }

    /// All regions: those set aside, then the active one.
    fn regions(&self) -> (r: Vec<Region>)
        ensures
            r@ == self@.regions(),
    {
        let mut out: Vec<Region> = Vec::new();
        let mut i: usize = 0;
        while i < self.extras.len()
            invariant
                i <= self.extras.len(),
                out@ == self.extras@.take(i as int),
            decreases self.extras.len() - i,
        {
            out.push(self.extras[i]);
            assert(self.extras@.take(i + 1) =~= self.extras@.take(i as int).push(
                self.extras@[i as int],
            ));
            i = i + 1;
        }
        assert(self.extras@.take(self.extras@.len() as int) =~= self.extras@);
        if let Some(region) = self.active {
            out.push(region);
        }
        out
    }

    // -----------------------------------------------------------------------
    // Copying
    // -----------------------------------------------------------------------

    /// The text of every region, in the order of where the regions start, without
    /// the characters at a position in `exclude`. Blank ones are left out.
    pub fn selected_parts(&self, exclude: Option<&PosSet>) -> (r: Vec<String>)
        ensures
            texts(r@) == self@.parts(excluded(exclude)),
    {
        let mut parts: Vec<String> = Vec::new();
        assert(texts(parts@) =~= Seq::<Seq<char>>::empty());
        let wrap = match &self.wrap {
            Some(wrap) => wrap,
            None => {
                return parts;
            },
        };
        let regions = sort_by_start(self.regions());
        let ghost m = wrap@;
        let ghost set = excluded(exclude);
        let mut i: usize = 0;
        assert(regions@.take(0) =~= Seq::<Region>::empty());
        while i < regions.len()
            invariant
                i <= regions.len(),
                m == wrap@,
                set == excluded(exclude),
                texts(parts@) == region_texts(m, regions@.take(i as int), set),
            decreases regions.len() - i,
        {
            let region = regions[i];
            let ghost before = texts(parts@);
            proof {
                assert(regions@.take(i + 1).drop_last() =~= regions@.take(i as int));
                assert(regions@.take(i + 1).last() == region);
            }
            if let Some(text) = extract_text(region.anchor, region.cursor, wrap, exclude) {
                parts.push(text);
                assert(texts(parts@) =~= before.push(text@));
            }
            i = i + 1;
        }
        assert(regions@.take(regions@.len() as int) =~= regions@);
        parts
    }

    /// The texts of all regions, joined by blank lines; nothing where there are
    /// none.
    pub fn selected_text(&self, exclude: Option<&PosSet>) -> (r: Option<String>)
        ensures
            match r {
                Some(text) => self@.parts(excluded(exclude)).len() > 0 && text@ == join(
                    self@.parts(excluded(exclude)),
                    seq!['\n', '\n'],
                ),
                None => self@.parts(excluded(exclude)).len() == 0,
            },
    {
        let parts = self.selected_parts(exclude);
        assert(texts(parts@).len() == parts@.len());
        if parts.len() == 0 {
            None
        } else {
            proof {
                reveal_strlit("\n\n");
                assert("\n\n"@ =~= seq!['\n', '\n']);
            }
            Some(join_strings(&parts, "\n\n"))
        }
    }
}

/// Where a motion takes a position.
fn move_pos(wrap: &PanelWrap, pos: TextPos, motion: Motion) -> (r: TextPos)
    ensures
        r == moved(wrap@, pos, motion),
{
    let count: usize = wrap.line_count();
    match motion {
        Motion::Left => if pos.col > 0 {
            TextPos::new(pos.line, pos.col - 1)
        } else if pos.line > 0 {
            TextPos::new(pos.line - 1, wrap.line_char_len(pos.line - 1).saturating_sub(1))
        } else {
            pos
        },
        Motion::Right => {
            let len: usize = wrap.line_char_len(pos.line);
            if pos.col < len && pos.col + 1 < len {
                TextPos::new(pos.line, pos.col + 1)
            } else if pos.line < count && pos.line + 1 < count {
                TextPos::new(pos.line + 1, 0)
            } else {
                pos
            }
        },
        Motion::Up => if pos.line > 0 {
            TextPos::new(pos.line - 1, kept_col(wrap, pos.line - 1, pos.col))
        } else {
            pos
        },
        Motion::Down => if pos.line < count && pos.line + 1 < count {
            TextPos::new(pos.line + 1, kept_col(wrap, pos.line + 1, pos.col))
        } else {
            pos
        },
    }
}

/// Column `col`, or the last one of a shorter line.
fn kept_col(wrap: &PanelWrap, line: usize, col: usize) -> (r: usize)
    ensures
        r == least(col as int, last_col(wrap@, line as int)),
{
    let last: usize = wrap.line_char_len(line).saturating_sub(1);
    if col < last {
        col
    } else {
        last
    }
}

/// Appends cells to others.
fn push_cells(out: &mut Vec<(u16, u16, u16)>, more: &Vec<(u16, u16, u16)>)
    ensures
        cell_numbers(final(out)@) == cell_numbers(old(out)@) + cell_numbers(more@),
{
    let ghost start = out@;
    let mut i: usize = 0;
    assert(start + more@.take(0) =~= start);
    while i < more.len()
        invariant
            i <= more.len(),
            start == old(out)@,
            out@ == start + more@.take(i as int),
        decreases more.len() - i,
    {
        out.push(more[i]);
        assert(more@.take(i + 1) =~= more@.take(i as int).push(more@[i as int]));
        i = i + 1;
    }
    assert(more@.take(more@.len() as int) =~= more@);
    assert(cell_numbers(out@) =~= cell_numbers(start) + cell_numbers(more@));
}

/// Sorts regions by where they start, keeping the order of equals.
fn sort_by_start(regions: Vec<Region>) -> (r: Vec<Region>)
    ensures
        r@ == by_start(regions@),
{
    let mut out: Vec<Region> = Vec::new();
    let mut i: usize = 0;
    assert(regions@.take(0) =~= Seq::<Region>::empty());
    while i < regions.len()
        invariant
            i <= regions.len(),
            out@ == by_start(regions@.take(i as int)),
        decreases regions.len() - i,
    {
        let region = regions[i];
        let ghost before = out@;
        let mut at: usize = out.len();
        proof {
            assert(before.take(before.len() as int) =~= before);
            assert(before.skip(before.len() as int) =~= Seq::<Region>::empty());
            assert(placed_by_start(before, region) =~= placed_by_start(
                before.take(at as int),
                region,
            ) + before.skip(at as int));
        }
        while at > 0 && region.start().precedes(out[at - 1].start())
            invariant
                at <= out.len(),
                before == out@,
                placed_by_start(before, region) == placed_by_start(before.take(at as int), region)
                    + before.skip(at as int),
            decreases at,
        {
            proof {
                let head = before.take(at as int);
                assert(head.drop_last() =~= before.take(at - 1));
                assert(head.last() == before[at - 1]);
                assert(placed_by_start(before.take(at - 1), region).push(before[at - 1])
                    + before.skip(at as int) =~= placed_by_start(before.take(at - 1), region)
                    + before.skip(at - 1));
            }
            at = at - 1;
        }
        out.insert(at, region);
        proof {
            let head = before.take(at as int);
            assert(at > 0 ==> head.last() == before[at - 1]);
            assert(placed_by_start(head, region) == head.push(region));
            assert(out@ =~= head.push(region) + before.skip(at as int));
            assert(regions@.take(i + 1).drop_last() =~= regions@.take(i as int));
            assert(regions@.take(i + 1).last() == region);
        }
        i = i + 1;
    }
    assert(regions@.take(regions@.len() as int) =~= regions@);
    out
}

/// The cells of the first regions come first.
proof fn lemma_region_cells_prefix(
    m: PanelModel,
    regions: Seq<Region>,
    area: Rect,
    scroll: int,
    i: int,
)
    requires
        0 <= i <= regions.len(),
    ensures
        region_cells(m, regions.take(i), area, scroll).len() <= region_cells(
            m,
            regions,
            area,
            scroll,
        ).len(),
        region_cells(m, regions, area, scroll).take(
            region_cells(m, regions.take(i), area, scroll).len() as int,
        ) == region_cells(m, regions.take(i), area, scroll),
    decreases regions.len() - i,
{
    let all = region_cells(m, regions, area, scroll);
    let less = region_cells(m, regions.take(i), area, scroll);
    if i < regions.len() {
        lemma_region_cells_prefix(m, regions, area, scroll, i + 1);
        let more = region_cells(m, regions.take(i + 1), area, scroll);
        assert(regions.take(i + 1).drop_last() =~= regions.take(i));
        assert(more.take(less.len() as int) =~= less);
        assert(all.take(less.len() as int) =~= more.take(less.len() as int));
    } else {
        assert(regions.take(i) =~= regions);
        assert(all.take(less.len() as int) =~= less);
    }
}

// ---------------------------------------------------------------------------
// Laws
// ---------------------------------------------------------------------------

/// Extending a selection keeps its live end in sight, and scrolls as far down as
/// the panel does where the live end is on a row that offsets do not reach.
pub proof fn law_live_end_stays_in_sight(s: PanelState, motion: Motion, area: Rect)
    requires
        s.wrap matches Some(m) && m.wf(),
        s.active is Some,
        area.height > 0,
    ensures
        ({
            let next = s.extended(motion, area);
            let row = next.wrap->0.place_of(next.active->0.cursor).0;
            &&& row < u16::MAX ==> next.scroll <= row < next.scroll + area.height
            &&& row >= u16::MAX ==> next.scroll == s.max_scroll(area.height)
        }),
{
    let m = s.wrap->0;
    let pos = moved(m, s.active->0.cursor, motion);
    lemma_row_in_line(m, pos);
    lemma_rows_before(m, m.clamped_line(pos), m.lines.len() as int);
}

/// A position that the text has is moved to one that it has.
pub proof fn law_motion_stays_in_text(m: PanelModel, pos: TextPos, motion: Motion)
    requires
        m.wf(),
        m.has_pos(pos),
    ensures
        m.has_pos(moved(m, pos, motion)),
{
    assert(pos.line > 0 ==> m.lines[pos.line - 1].len() <= usize::MAX);
    assert(pos.line + 1 < m.lines.len() ==> m.lines[pos.line + 1].len() <= usize::MAX);
}

/// Scrolling by itself moves the offset by at most one row and never past the
/// end, and takes the live end to a position that the text has.
pub proof fn law_tick_stays_in_text(s: PanelState, area: Rect)
    requires
        s.wrap matches Some(m) && m.wf(),
        s.active is Some,
        s.pending is Some,
        s.scroll <= s.max_scroll(area.height),
    ensures
        s.ticked(area).scroll <= s.max_scroll(area.height),
        s.scroll - 1 <= s.ticked(area).scroll <= s.scroll + 1,
        s.wrap->0.has_pos(s.ticked(area).active->0.cursor),
        s.ticked(area).active->0.anchor == s.active->0.anchor,
        s.ticked(area).extras == s.extras,
{
    lemma_tick_lands_in_text(s, area);
}

/// Whether no region starts before the one in front of it.
pub open spec fn in_start_order(regions: Seq<Region>) -> bool {
    forall|i: int, j: int|
        0 <= i < j < regions.len() ==> !(#[trigger] regions[j]).starts_at().before(
            (#[trigger] regions[i]).starts_at(),
        )
}

proof fn lemma_placed_by_start(regions: Seq<Region>, region: Region)
    requires
        in_start_order(regions),
    ensures
        in_start_order(placed_by_start(regions, region)),
        placed_by_start(regions, region).to_multiset() == regions.to_multiset().insert(region),
        forall|k: int|
            0 <= k < placed_by_start(regions, region).len() ==> (#[trigger] placed_by_start(
                regions,
                region,
            )[k]) == region || regions.contains(placed_by_start(regions, region)[k]),
    decreases regions.len(),
{
    broadcast use vstd::seq_lib::group_to_multiset_ensures;

    let placed = placed_by_start(regions, region);
    if regions.len() > 0 && region.starts_at().before(regions.last().starts_at()) {
        let less = regions.drop_last();
        lemma_placed_by_start(less, region);
        let inner = placed_by_start(less, region);
        assert(regions =~= less.push(regions.last()));
        assert(placed == inner.push(regions.last()));
        assert forall|i: int, j: int| 0 <= i < j < placed.len() implies !(
        #[trigger] placed[j]).starts_at().before((#[trigger] placed[i]).starts_at()) by {
            if j < inner.len() {
                assert(inner[j] == placed[j] && inner[i] == placed[i]);
            } else {
                assert(inner[i] == placed[i]);
                if inner[i] != region {
                    let k = choose|k: int| 0 <= k < less.len() && less[k] == inner[i];
                    assert(regions[k] == inner[i]);
                    assert(regions[regions.len() - 1] == placed[j]);
                }
            }
        }
        assert(placed.to_multiset() =~= regions.to_multiset().insert(region));
        assert forall|k: int| 0 <= k < placed.len() implies (#[trigger] placed[k]) == region
            || regions.contains(placed[k]) by {
            if k < inner.len() {
                assert(inner[k] == placed[k]);
                if inner[k] != region {
                    let n = choose|n: int| 0 <= n < less.len() && less[n] == inner[k];
                    assert(regions[n] == placed[k]);
                }
            } else {
                assert(regions[regions.len() - 1] == placed[k]);
            }
        }
    } else {
        assert forall|i: int, j: int| 0 <= i < j < placed.len() implies !(
        #[trigger] placed[j]).starts_at().before((#[trigger] placed[i]).starts_at()) by {
            assert(placed[i] == regions[i]);
            if j < regions.len() {
                assert(placed[j] == regions[j]);
            } else if i < regions.len() - 1 {
                assert(!regions[regions.len() - 1].starts_at().before(regions[i].starts_at()));
            }
        }
        assert forall|k: int| 0 <= k < placed.len() implies (#[trigger] placed[k]) == region
            || regions.contains(placed[k]) by {
            if k < regions.len() {
                assert(regions[k] == placed[k]);
            }
        }
    }
}

/// Regions are copied in the order of where they start: none is left out, none
/// comes twice, and none starts before the one in front of it.
pub proof fn law_regions_in_start_order(regions: Seq<Region>)
    ensures
        in_start_order(by_start(regions)),
        by_start(regions).to_multiset() == regions.to_multiset(),
    decreases regions.len(),
{
    broadcast use vstd::seq_lib::group_to_multiset_ensures;

    if regions.len() > 0 {
        law_regions_in_start_order(regions.drop_last());
        lemma_placed_by_start(by_start(regions.drop_last()), regions.last());
        assert(regions =~= regions.drop_last().push(regions.last()));
    }
}

/// Two sequences of the same regions, both in start order, are equal where no
/// two regions start at one place.
proof fn lemma_start_order_unique(a: Seq<Region>, b: Seq<Region>)
    requires
        in_start_order(a),
        in_start_order(b),
        a.to_multiset() == b.to_multiset(),
        forall|i: int, j: int|
            0 <= i < a.len() && 0 <= j < a.len() && (#[trigger] a[i]).starts_at() == (
            #[trigger] a[j]).starts_at() ==> a[i] == a[j],
    ensures
        a == b,
    decreases a.len(),
{
    broadcast use vstd::seq_lib::group_to_multiset_ensures;

    assert(a.len() == a.to_multiset().len());
    assert(b.len() == b.to_multiset().len());
    if a.len() == 0 {
        assert(a =~= b);
    } else {
        let x = a.last();
        let y = b.last();
        assert(a[a.len() - 1] == x);
        assert(b[b.len() - 1] == y);
        assert(a.contains(x));
        assert(b.contains(x)) by {
            assert(b.to_multiset().count(x) > 0);
        }
        assert(b.contains(y));
        assert(a.contains(y)) by {
            assert(a.to_multiset().count(y) > 0);
        }
        let i = choose|i: int| 0 <= i < a.len() && a[i] == y;
        let j = choose|j: int| 0 <= j < b.len() && b[j] == x;
        assert(i < a.len() - 1 ==> !x.starts_at().before(y.starts_at()));
        assert(j < b.len() - 1 ==> !y.starts_at().before(x.starts_at()));
        assert(x.starts_at() == y.starts_at());
        assert(x == y);
        let less_a = a.drop_last();
        let less_b = b.drop_last();
        assert(less_a =~= a.remove(a.len() - 1));
        assert(less_b =~= b.remove(b.len() - 1));
        assert forall|i: int, j: int|
            0 <= i < less_a.len() && 0 <= j < less_a.len() && (#[trigger] less_a[i]).starts_at()
                == (#[trigger] less_a[j]).starts_at() implies less_a[i] == less_a[j] by {
            assert(a[i] == less_a[i] && a[j] == less_a[j]);
        }
        lemma_start_order_unique(less_a, less_b);
        assert(a =~= less_a.push(x));
        assert(b =~= less_b.push(y));
    }
}

/// What is copied does not depend on the order in which the regions were made,
/// where no two of them start at one place.
pub proof fn law_creation_order_does_not_matter(
    m: PanelModel,
    a: Seq<Region>,
    b: Seq<Region>,
    exclude: Set<TextPos>,
)
    requires
        a.to_multiset() == b.to_multiset(),
        forall|i: int, j: int|
            0 <= i < a.len() && 0 <= j < a.len() && (#[trigger] a[i]).starts_at() == (
            #[trigger] a[j]).starts_at() ==> a[i] == a[j],
    ensures
        region_texts(m, by_start(a), exclude) == region_texts(m, by_start(b), exclude),
{
    broadcast use vstd::seq_lib::group_to_multiset_ensures;

    law_regions_in_start_order(a);
    law_regions_in_start_order(b);
    let sorted = by_start(a);
    assert forall|i: int, j: int|
        0 <= i < sorted.len() && 0 <= j < sorted.len() && (#[trigger] sorted[i]).starts_at() == (
        #[trigger] sorted[j]).starts_at() implies sorted[i] == sorted[j] by {
        assert(sorted.contains(sorted[i]) && sorted.contains(sorted[j]));
        assert(a.to_multiset().count(sorted[i]) > 0);
        assert(a.to_multiset().count(sorted[j]) > 0);
        assert(a.contains(sorted[i]) && a.contains(sorted[j]));
        let x = choose|x: int| 0 <= x < a.len() && a[x] == sorted[i];
        let y = choose|y: int| 0 <= y < a.len() && a[y] == sorted[j];
        assert(a[x].starts_at() == a[y].starts_at());
    }
    lemma_start_order_unique(by_start(a), by_start(b));
}

/// On a screen that the area and the lines' width fit on, every highlighted cell
/// has a row and a column number.
pub proof fn law_all_highlights_fit(s: PanelState, area: Rect)
    requires
        s.wrap matches Some(m) ==> m.wf() && area.x + greatest(m.wrap_width(), 1) <= u16::MAX,
        area.rows_fit(),
    ensures
        cells_fit(s.cells(area)),
{
    if let Some(m) = s.wrap {
        lemma_region_cells_fit(m, s.regions(), area, s.scroll as int);
    }
}

proof fn lemma_region_cells_fit(m: PanelModel, regions: Seq<Region>, area: Rect, scroll: int)
    requires
        m.wf(),
        0 <= scroll,
        area.x + greatest(m.wrap_width(), 1) <= u16::MAX,
        area.rows_fit(),
    ensures
        cells_fit(region_cells(m, regions, area, scroll)),
    decreases regions.len(),
{
    if regions.len() > 0 {
        let last = regions.last();
        let before = region_cells(m, regions.drop_last(), area, scroll);
        let own = selection_cells(m, last.anchor, last.cursor, area, scroll);
        let all = region_cells(m, regions, area, scroll);
        lemma_region_cells_fit(m, regions.drop_last(), area, scroll);
        law_highlight_fits(m, last.anchor, last.cursor, area, scroll);
        assert forall|k: int| 0 <= k < all.len() implies (#[trigger] all[k]).0 <= u16::MAX
            && all[k].2 <= u16::MAX by {
            if k < before.len() {
                assert(all[k] == before[k]);
            } else {
                assert(all[k] == own[k - before.len()]);
            }
        }
    }
}

/// Up and down go to the neighbouring line, not past the first and the last, and
/// keep the column wherever that line has a character in it; in a shorter line
/// they go to its last character.
pub proof fn law_motion_keeps_the_column(m: PanelModel, pos: TextPos)
    requires
        m.wf(),
    ensures
        ({
            let up = moved(m, pos, Motion::Up);
            let down = moved(m, pos, Motion::Down);
            &&& pos.line == 0 ==> up == pos
            &&& pos.line > 0 ==> up.line == pos.line - 1
            &&& pos.line > m.lines.len() ==> up.col == 0
            &&& 0 < pos.line <= m.lines.len() ==> ({
                let len = m.lines[pos.line - 1].len();
                &&& pos.col < len ==> up.col == pos.col
                &&& 0 < len <= pos.col ==> up.col == len - 1
                &&& len == 0 ==> up.col == 0
            })
            &&& pos.line + 1 >= m.lines.len() ==> down == pos
            &&& pos.line + 1 < m.lines.len() ==> ({
                let len = m.lines[pos.line + 1].len();
                &&& down.line == pos.line + 1
                &&& pos.col < len ==> down.col == pos.col
                &&& 0 < len <= pos.col ==> down.col == len - 1
                &&& len == 0 ==> down.col == 0
            })
        }),
{
    assert(0 < pos.line <= m.lines.len() ==> m.lines[pos.line - 1].len() <= usize::MAX);
    assert(pos.line + 1 < m.lines.len() ==> m.lines[pos.line + 1].len() <= usize::MAX);
}

/// From a character whose column the neighbouring line has too, up undoes down
/// and down undoes up.
pub proof fn law_up_undoes_down(m: PanelModel, pos: TextPos)
    requires
        m.wf(),
        m.has_pos(pos),
        pos.col < m.lines[pos.line as int].len(),
    ensures
        pos.line + 1 < m.lines.len() && pos.col < m.lines[pos.line + 1].len() ==> moved(
            m,
            moved(m, pos, Motion::Down),
            Motion::Up,
        ) == pos,
        pos.line > 0 && pos.col < m.lines[pos.line - 1].len() ==> moved(
            m,
            moved(m, pos, Motion::Up),
            Motion::Down,
        ) == pos,
{
    if pos.line + 1 < m.lines.len() && pos.col < m.lines[pos.line + 1].len() {
        law_motion_keeps_the_column(m, pos);
        law_motion_keeps_the_column(m, moved(m, pos, Motion::Down));
    }
    if pos.line > 0 && pos.col < m.lines[pos.line - 1].len() {
        law_motion_keeps_the_column(m, pos);
        law_motion_keeps_the_column(m, moved(m, pos, Motion::Up));
    }
}

/// Whether a character stands at a position; an empty line counts as one.
pub open spec fn on_character(m: PanelModel, pos: TextPos) -> bool {
    &&& pos.line < m.lines.len()
    &&& pos.col < m.lines[pos.line as int].len() || pos.col == 0
}

/// Right goes to the next character of the text: behind the position, with none
/// between, across the end of a line too. Where no character is left, the
/// position stays.
pub proof fn law_right_goes_to_the_next_character(m: PanelModel, pos: TextPos)
    requires
        m.wf(),
    ensures
        ({
            let next = moved(m, pos, Motion::Right);
            &&& next != pos ==> on_character(m, next) && pos.before(next) && forall|q: TextPos|
                #[trigger] on_character(m, q) && pos.before(q) ==> !q.before(next)
            &&& next == pos ==> forall|q: TextPos|
                #[trigger] on_character(m, q) ==> !pos.before(q)
        }),
{
}

/// Left goes to the character before: in front of the position, with none
/// between, across the end of a line too. At the first character the position
/// stays. From past the end of a line it goes one column back.
pub proof fn law_left_goes_to_the_character_before(m: PanelModel, pos: TextPos)
    requires
        m.wf(),
    ensures
        ({
            let next = moved(m, pos, Motion::Left);
            &&& m.has_pos(pos) && next != pos ==> on_character(m, next) && next.before(pos)
                && forall|q: TextPos|
                #[trigger] on_character(m, q) && q.before(pos) ==> !next.before(q)
            &&& next == pos ==> forall|q: TextPos|
                #[trigger] on_character(m, q) ==> !q.before(pos)
            &&& pos.col > 0 ==> next.line == pos.line && next.col == pos.col - 1
            &&& pos.col == 0 && pos.line > 0 ==> next.line == pos.line - 1
        }),
{
    assert(0 < pos.line <= m.lines.len() ==> m.lines[pos.line - 1].len() <= usize::MAX);
}

/// While a drag held past an edge still has text to scroll to, each step brings
/// one more row into sight and takes the live end there: above, to the first
/// character of the row that is now at the top; below, to the end of the line that
/// the row now at the bottom belongs to, so that no line that begins further down
/// is selected. Once all text was scrolled to, the live end is at the text's own
/// end.
pub proof fn law_tick_goes_to_the_edge(s: PanelState, area: Rect)
    requires
        s.wrap matches Some(m) && m.wf(),
        s.active is Some,
        s.pending is Some,
    ensures
        ({
            let m = s.wrap->0;
            let next = s.ticked(area);
            let live = next.active->0.cursor;
            let bottom = next.scroll + area.height - 1;
            let last = m.rows_before(live.line as int) + m.line_rows(live.line as int) - 1;
            match s.pending->0 {
                AutoScroll::Up => {
                    &&& s.scroll > 0 ==> next.scroll == s.scroll - 1
                    &&& 0 < s.scroll <= m.total_rows() ==> m.place_of(live) == (
                        next.scroll as int,
                        0int,
                    )
                    &&& s.scroll > m.total_rows() ==> live.line == m.lines.len() - 1
                    &&& s.scroll == 0 ==> next.scroll == 0 && live == (TextPos { line: 0, col: 0 })
                },
                AutoScroll::Down => {
                    &&& s.scroll < s.max_scroll(area.height) ==> next.scroll == s.scroll + 1
                    &&& s.scroll > s.max_scroll(area.height) ==> next.scroll == s.max_scroll(
                        area.height,
                    )
                    &&& s.scroll != s.max_scroll(area.height) ==> {
                        &&& live.line < m.lines.len()
                        &&& live.col == m.lines[live.line as int].len()
                        &&& m.rows_before(live.line as int) <= bottom
                        &&& bottom < m.total_rows() ==> bottom <= last
                        &&& bottom == last ==> m.place_of(live).0 == bottom
                        &&& forall|i: int|
                            live.line < i < m.lines.len() ==> bottom < #[trigger] m.rows_before(i)
                    }
                    &&& s.scroll == s.max_scroll(area.height) ==> {
                        &&& next.scroll == s.scroll
                        &&& live.line == m.lines.len() - 1
                        &&& live.col == m.lines[live.line as int].len()
                    }
                },
            }
        }),
        s.ticked(area).active->0.anchor == s.active->0.anchor,
        s.ticked(area).pending == s.pending,
        s.ticked(area).wrap == s.wrap,
        s.ticked(area).extras == s.extras,
{
    let m = s.wrap->0;
    let n = m.lines.len() as int;
    let next = s.ticked(area);
    let live = next.active->0.cursor;
    let w = m.wrap_width();
    lemma_rows_before(m, 0, n);
    match s.pending->0 {
        AutoScroll::Up => {
            if s.scroll > 0 {
                let row = s.scroll - 1;
                if row < m.total_rows() {
                    let i = m.line_at(row);
                    let r = row - m.rows_before(i);
                    lemma_row_line(m, row);
                    lemma_row_bounds(m, i, r);
                    law_cell_found_again(m, row, 0);
                } else {
                    law_cell_past_an_end_stands_for_the_end(m, row, 0);
                }
            } else {
                lemma_row_line(m, 0);
                lemma_rows_before(m, 0, 1);
                lemma_line_at(m, 0, 0);
                assert(0 * w == 0);
            }
        },
        AutoScroll::Down => {
            let row = if s.scroll == s.max_scroll(area.height) {
                m.total_rows() - 1
            } else {
                next.scroll + area.height - 1
            };
            let i = m.line_at(row);
            let r = row - m.rows_before(i);
            lemma_row_line(m, row);
            assert(m.lines[i].len() <= usize::MAX);
            assert(r * w >= 0) by (nonlinear_arith)
                requires
                    r >= 0,
                    w >= 0,
            ;
            assert(live.line == i && live.col == m.lines[i].len());
            lemma_rows_before(m, n - 1, n);
            if s.scroll == s.max_scroll(area.height) {
                lemma_line_at(m, row, n - 1);
            }
            assert forall|j: int| i < j < n implies row < #[trigger] m.rows_before(j) by {
                lemma_rows_before(m, i, j);
            }
            law_line_end_is_on_its_last_row(m, live);
        },
    }
}

/// Extending a selection moves its live end and nothing else of it, and what was
/// set aside stays as it is.
pub proof fn law_extending_moves_the_live_end(s: PanelState, motion: Motion, area: Rect)
    ensures
        ({
            let next = s.extended(motion, area);
            &&& next.wrap == s.wrap && next.mode == s.mode && next.marker == s.marker
            &&& next.extras == s.extras && next.pending == s.pending
            &&& s.active is None || s.wrap is None ==> next == s
            &&& s.active is Some && s.wrap is Some ==> next.active is Some
                && next.active->0.anchor == s.active->0.anchor && next.active->0.cursor == moved(
                s.wrap->0,
                s.active->0.cursor,
                motion,
            )
        }),
{
}

/// Extending a selection scrolls no further than its live end needs: not at all
/// where that is in sight, up until it is on the first row, and down until it is on
/// the last.
pub proof fn law_extending_scrolls_no_more_than_needed(s: PanelState, motion: Motion, area: Rect)
    requires
        s.wrap matches Some(m) && m.wf(),
        s.active is Some,
    ensures
        ({
            let next = s.extended(motion, area);
            let row = s.wrap->0.place_of(next.active->0.cursor).0;
            let max = s.max_scroll(area.height);
            &&& area.height == 0 ==> next.scroll == s.scroll
            &&& area.height > 0 ==> {
                &&& next.scroll <= max
                &&& s.scroll <= max && s.scroll <= row < s.scroll + area.height ==> next.scroll
                    == s.scroll
                &&& row < s.scroll && row <= max ==> next.scroll == row
                &&& s.scroll + area.height <= row < u16::MAX ==> next.scroll + area.height - 1
                    == row
            }
        }),
{
    let m = s.wrap->0;
    let pos = moved(m, s.active->0.cursor, motion);
    lemma_row_in_line(m, pos);
    lemma_rows_before(m, m.clamped_line(pos), m.lines.len() as int);
    if m.clamped_line(pos) > 0 {
        lemma_rows_before(m, 0, m.clamped_line(pos));
    }
}

/// At the largest scroll offset the last row of the text is the last in sight, and
/// a text that fits does not scroll.
pub proof fn law_scrolling_ends_with_the_text(s: PanelState, height: u16)
    requires
        s.total_rows() <= u16::MAX,
    ensures
        s.total_rows() <= height ==> s.max_scroll(height) == 0,
        s.total_rows() > height ==> s.max_scroll(height) + height == s.total_rows(),
{
}

/// A drag within the panel's rows takes the live end to the position under the
/// pointer and ends scrolling. A drag above the panel scrolls up and one below it
/// down, a step at once and more with every tick. The rest of the selection stays,
/// and without a selection or a text nothing is dragged.
pub proof fn law_drag_follows_the_pointer(s: PanelState, area: Rect, point: (u16, u16))
    ensures
        ({
            let next = s.dragged(area, point);
            let up = PanelState { pending: Some(AutoScroll::Up), ..s };
            let down = PanelState { pending: Some(AutoScroll::Down), ..s };
            let above = area.height > 0 && point.1 < area.y;
            let below = area.height > 0 && (point.1 >= area.y + area.height || (point.1 == u16::MAX
                && !above));
            &&& next.extras == s.extras && next.wrap == s.wrap
            &&& next.mode == s.mode && next.marker == s.marker
            &&& s.active is None ==> next == s
            &&& s.active is Some ==> {
                &&& next.active is Some && next.active->0.anchor == s.active->0.anchor
                &&& above ==> next.pending == Some(AutoScroll::Up) && next == up.ticked(area)
                &&& below ==> next.pending == Some(AutoScroll::Down) && next == down.ticked(area)
                &&& !above && !below ==> next.pending is None && next.scroll == s.scroll
                &&& !above && !below && s.wrap is Some ==> next.active->0.cursor == s.pos_under(
                    area,
                    point,
                )
                &&& s.wrap is None ==> next.active == s.active
            }
        }),
{
}

/// Without a selection a tick only ends the scrolling, without scrolling it does
/// nothing, and without a text it leaves the selection alone and goes no further
/// down than the start.
pub proof fn law_tick_needs_a_selection(s: PanelState, area: Rect)
    ensures
        ({
            let next = s.ticked(area);
            &&& s.pending is None ==> next == s
            &&& s.pending is Some && s.active is None ==> next == (PanelState {
                pending: None,
                ..s
            })
            &&& s.pending is Some && s.active is Some && s.wrap is None ==> {
                &&& next.active == s.active && next.pending == s.pending
                &&& s.pending->0 is Down || s.scroll == 0 ==> next.scroll == 0
                &&& s.pending->0 is Up && s.scroll > 0 ==> next.scroll == s.scroll - 1
            }
        }),
{
}

/// A point inside the panel stands for the position that its row and column show,
/// counted from the panel's corner and from the scroll offset on; one outside stands
/// for what the nearest cell does.
pub proof fn law_point_counts_from_the_corner(s: PanelState, area: Rect, point: (u16, u16))
    requires
        s.wrap is Some,
    ensures
        ({
            let x = if point.0 < area.x || area.width == 0 {
                area.x as int
            } else if point.0 >= area.x + area.width {
                area.x + area.width - 1
            } else {
                point.0 as int
            };
            let y = if point.1 < area.y || area.height == 0 {
                area.y as int
            } else if point.1 >= area.y + area.height {
                area.y + area.height - 1
            } else {
                point.1 as int
            };
            s.pos_under(area, point) == s.wrap->0.pos_at(s.scroll + (y - area.y), x - area.x)
        }),
{
}

/// The position under a cell of the panel that shows a character is that of the
/// character: the row and column it falls on are those of the cell.
pub proof fn law_pointer_is_on_the_character_shown(s: PanelState, area: Rect, r: int, c: int)
    requires
        s.wrap matches Some(m) && m.wf() && m.wrap_width() > 0,
        0 <= r < area.height,
        0 <= c < area.width,
        area.x + area.width <= u16::MAX,
        area.y + area.height <= u16::MAX,
        s.scroll + r < s.total_rows(),
        ({
            let m = s.wrap->0;
            let i = m.line_at(s.scroll + r);
            let own = s.scroll + r - m.rows_before(i);
            m.row_from(i, own) + c < m.row_to(i, own)
        }),
    ensures
        ({
            let m = s.wrap->0;
            let pos = s.pos_under(area, ((area.x + c) as u16, (area.y + r) as u16));
            m.has_pos(pos) && m.place_of(pos) == (s.scroll + r, c)
        }),
{
    let m = s.wrap->0;
    let row = s.scroll + r;
    let i = m.line_at(row);
    let own = row - m.rows_before(i);
    lemma_row_line(m, row);
    lemma_row_bounds(m, i, own);
    assert(m.lines[i].len() <= usize::MAX);
    if m.mode == WrapMode::Clip {
        assert(own * m.wrap_width() == 0) by (nonlinear_arith)
            requires
                own == 0,
        ;
    }
    law_cell_found_again(m, row, c);
}

/// All regions count: those that were set aside and the active one, each once.
pub proof fn law_all_regions_count(s: PanelState, region: Region)
    ensures
        s.regions().contains(region) <==> s.extras.contains(region) || s.active == Some(region),
        s.active is Some ==> s.regions().len() == s.extras.len() + 1,
        s.active is None ==> s.regions().len() == s.extras.len(),
{
    if s.active is Some {
        let all = s.regions();
        if s.extras.contains(region) {
            let i = choose|i: int| 0 <= i < s.extras.len() && s.extras[i] == region;
            assert(all[i] == region);
        }
        if s.active == Some(region) {
            assert(all[all.len() - 1] == region);
        }
        if all.contains(region) {
            let i = choose|i: int| 0 <= i < all.len() && all[i] == region;
            assert(i < s.extras.len() ==> s.extras[i] == region);
        }
    }
}

/// The copied parts are the texts of all regions, each without the excluded
/// characters, in order and without the blank ones.
pub proof fn law_parts_are_the_regions_texts(
    m: PanelModel,
    regions: Seq<Region>,
    exclude: Set<TextPos>,
)
    ensures
        region_texts(m, regions, exclude) == regions.map_values(
            |region: Region| selected_text(m, region.anchor, region.cursor, exclude),
        ).filter(|text: Seq<char>| !is_blank(text)),
    decreases regions.len(),
{
    reveal(Seq::filter);
    let text_of = |region: Region| selected_text(m, region.anchor, region.cursor, exclude);
    if regions.len() > 0 {
        law_parts_are_the_regions_texts(m, regions.drop_last(), exclude);
        let all = regions.map_values(text_of);
        assert(all.drop_last() =~= regions.drop_last().map_values(text_of));
        assert(all.last() == text_of(regions.last()));
    } else {
        assert(regions.map_values(text_of) =~= Seq::<Seq<char>>::empty());
    }
}

/// A cell is highlighted exactly if one of the regions covers it.
pub proof fn law_every_region_is_highlighted(
    m: PanelModel,
    regions: Seq<Region>,
    area: Rect,
    scroll: int,
    row: int,
    col: int,
)
    ensures
        covers(region_cells(m, regions, area, scroll), row, col) <==> exists|i: int|
            0 <= i < regions.len() && covers(
                selection_cells(
                    m,
                    (#[trigger] regions[i]).anchor,
                    regions[i].cursor,
                    area,
                    scroll,
                ),
                row,
                col,
            ),
    decreases regions.len(),
{
    let all = region_cells(m, regions, area, scroll);
    if regions.len() > 0 {
        let less = regions.drop_last();
        let last = regions.last();
        let before = region_cells(m, less, area, scroll);
        let own = selection_cells(m, last.anchor, last.cursor, area, scroll);
        law_every_region_is_highlighted(m, less, area, scroll, row, col);
        if covers(all, row, col) {
            let j = choose|j: int|
                0 <= j < all.len() && (#[trigger] all[j]).0 == row && all[j].1 <= col < all[j].2;
            if j < before.len() {
                assert(before[j] == all[j]);
                assert(covers(before, row, col));
                let i = choose|i: int|
                    0 <= i < less.len() && covers(
                        selection_cells(
                            m,
                            (#[trigger] less[i]).anchor,
                            less[i].cursor,
                            area,
                            scroll,
                        ),
                        row,
                        col,
                    );
                assert(regions[i] == less[i]);
            } else {
                assert(own[j - before.len()] == all[j]);
                assert(regions[regions.len() - 1] == last);
            }
        }
        if exists|i: int|
            0 <= i < regions.len() && covers(
                selection_cells(
                    m,
                    (#[trigger] regions[i]).anchor,
                    regions[i].cursor,
                    area,
                    scroll,
                ),
                row,
                col,
            ) {
            let i = choose|i: int|
                0 <= i < regions.len() && covers(
                    selection_cells(
                        m,
                        (#[trigger] regions[i]).anchor,
                        regions[i].cursor,
                        area,
                        scroll,
                    ),
                    row,
                    col,
                );
            if i < less.len() {
                assert(less[i] == regions[i]);
                assert(covers(before, row, col));
                let j = choose|j: int|
                    0 <= j < before.len() && (#[trigger] before[j]).0 == row && before[j].1 <= col
                        < before[j].2;
                assert(all[j] == before[j]);
            } else {
                let j = choose|j: int|
                    0 <= j < own.len() && (#[trigger] own[j]).0 == row && own[j].1 <= col
                        < own[j].2;
                assert(all[before.len() + j] == own[j]);
            }
        }
    }
}

/// Regions that start at one place keep their order: one that comes before
/// another among all comes before it in start order too.
pub proof fn law_equal_starts_keep_their_order(regions: Seq<Region>, start: TextPos)
    ensures
        by_start(regions).filter(|region: Region| region.starts_at() == start) == regions.filter(
            |region: Region| region.starts_at() == start,
        ),
    decreases regions.len(),
{
    if regions.len() > 0 {
        law_equal_starts_keep_their_order(regions.drop_last(), start);
        lemma_placed_keeps_order(by_start(regions.drop_last()), regions.last(), start);
        let at_start = |region: Region| region.starts_at() == start;
        by_start(regions.drop_last()).lemma_filter_push(regions.last(), at_start);
        regions.drop_last().lemma_filter_push(regions.last(), at_start);
        assert(regions.drop_last().push(regions.last()) =~= regions);
    }
}

proof fn lemma_placed_keeps_order(regions: Seq<Region>, region: Region, start: TextPos)
    ensures
        placed_by_start(regions, region).filter(|r: Region| r.starts_at() == start) == regions.push(
            region,
        ).filter(|r: Region| r.starts_at() == start),
    decreases regions.len(),
{
    let at_start = |r: Region| r.starts_at() == start;
    if regions.len() > 0 && region.starts_at().before(regions.last().starts_at()) {
        let less = regions.drop_last();
        let last = regions.last();
        lemma_placed_keeps_order(less, region, start);
        let inner = placed_by_start(less, region);
        assert(inner.filter(at_start) == less.push(region).filter(at_start));
        inner.lemma_filter_push(last, at_start);
        less.lemma_filter_push(region, at_start);
        regions.lemma_filter_push(region, at_start);
        less.lemma_filter_push(last, at_start);
        assert(less.push(last) =~= regions);
        assert(!(at_start(region) && at_start(last)));
        assert(placed_by_start(regions, region).filter(at_start) =~= regions.push(region).filter(
            at_start,
        ));
    }
}

/// A panel copies the texts of all its regions, in the order of where they start:
/// of those set aside, in the order in which they were, and of the active one as
/// the last. Without a text it copies nothing.
pub proof fn law_panel_copies_all_its_regions(s: PanelState, exclude: Set<TextPos>)
    ensures
        s.wrap is None ==> s.parts(exclude).len() == 0,
        s.wrap matches Some(m) ==> ({
            let text_of = |region: Region|
                selected_text(m, region.anchor, region.cursor, exclude);
            let told = |text: Seq<char>| !is_blank(text);
            &&& s.active matches Some(region) ==> s.parts(exclude) == by_start(
                s.extras.push(region),
            ).map_values(text_of).filter(told)
            &&& s.active is None ==> s.parts(exclude) == by_start(s.extras).map_values(
                text_of,
            ).filter(told)
        }),
{
    if let Some(m) = s.wrap {
        law_parts_are_the_regions_texts(m, by_start(s.regions()), exclude);
    }
}

/// A panel highlights all its regions: a cell is highlighted exactly if the active
/// one or one that was set aside covers it.
pub proof fn law_panel_highlights_all_its_regions(s: PanelState, area: Rect, row: int, col: int)
    ensures
        s.wrap is None ==> !covers(s.cells(area), row, col),
        s.wrap matches Some(m) ==> ({
            let covered = |region: Region|
                covers(
                    selection_cells(m, region.anchor, region.cursor, area, s.scroll as int),
                    row,
                    col,
                );
            covers(s.cells(area), row, col) <==> (s.active is Some && covered(s.active->0)) || (
            exists|i: int| 0 <= i < s.extras.len() && covered(#[trigger] s.extras[i]))
        }),
{
    if let Some(m) = s.wrap {
        let scroll = s.scroll as int;
        let all = s.regions();
        let covered = |region: Region|
            covers(selection_cells(m, region.anchor, region.cursor, area, scroll), row, col);
        law_every_region_is_highlighted(m, all, area, scroll, row, col);
        if covers(s.cells(area), row, col) {
            let i = choose|i: int|
                0 <= i < all.len() && covers(
                    selection_cells(
                        m,
                        (#[trigger] all[i]).anchor,
                        all[i].cursor,
                        area,
                        scroll,
                    ),
                    row,
                    col,
                );
            assert(covered(all[i]));
            assert(i < s.extras.len() ==> all[i] == s.extras[i]);
        }
        if s.active is Some && covered(s.active->0) {
            assert(all[all.len() - 1] == s.active->0);
        }
        if exists|i: int| 0 <= i < s.extras.len() && covered(#[trigger] s.extras[i]) {
            let i = choose|i: int| 0 <= i < s.extras.len() && covered(#[trigger] s.extras[i]);
            assert(all[i] == s.extras[i]);
        }
    }
}

/// A step of scrolling selects nothing beyond the window's edge, as long as the
/// region began no further off: nothing that falls on a row above the window, no
/// line that begins below it, and nothing at all below it where the window's last
/// row is the last of its line.
pub proof fn law_tick_selects_nothing_beyond_the_edge(s: PanelState, area: Rect, pos: TextPos)
    requires
        s.wrap matches Some(m) && m.wf() && m.has_pos(pos) && m.has_pos(s.active->0.anchor),
        s.active is Some,
        s.pending is Some,
        ({
            let live = s.ticked(area).active->0.cursor;
            lies_between(s.active->0.anchor, live, pos)
        }),
    ensures
        ({
            let m = s.wrap->0;
            let anchor = m.place_of(s.active->0.anchor).0;
            let top = s.ticked(area).scroll;
            let bottom = top + area.height - 1;
            let i = pos.line as int;
            let edge = m.line_at(bottom);
            match s.pending->0 {
                AutoScroll::Up => 0 < s.scroll <= m.total_rows() && top <= anchor ==> top
                    <= m.place_of(pos).0,
                AutoScroll::Down => s.scroll < s.max_scroll(area.height) && anchor <= bottom ==> {
                    &&& m.rows_before(i) <= bottom
                    &&& m.rows_before(edge) + m.line_rows(edge) - 1 == bottom ==> m.place_of(pos).0
                        <= bottom
                },
            }
        }),
{
    let m = s.wrap->0;
    let anchor = s.active->0.anchor;
    let live = s.ticked(area).active->0.cursor;
    law_tick_goes_to_the_edge(s, area);
    lemma_tick_lands_in_text(s, area);
    match s.pending->0 {
        AutoScroll::Up => {
            if live.before(anchor) || live == anchor {
                law_rows_are_in_text_order(m, live, pos);
            } else {
                law_rows_are_in_text_order(m, anchor, pos);
            }
        },
        AutoScroll::Down => {
            let bottom = s.ticked(area).scroll + area.height - 1;
            if s.scroll < s.max_scroll(area.height) {
                lemma_rows_before(m, 0, m.lines.len() as int);
                lemma_row_line(m, bottom);
                if live.line + 1 < m.lines.len() {
                    lemma_rows_before(m, live.line as int, live.line + 1);
                }
                lemma_line_at(m, bottom, live.line as int);
                let end = if anchor.before(live) || live == anchor {
                    live
                } else {
                    anchor
                };
                law_rows_are_in_text_order(m, pos, end);
                lemma_row_in_line(m, anchor);
                lemma_row_in_line(m, end);
                if pos.line < end.line {
                    lemma_rows_before(m, pos.line as int, end.line as int);
                }
            }
        },
    }
}

/// Scrolling by itself takes the live end to a position that the text has.
proof fn lemma_tick_lands_in_text(s: PanelState, area: Rect)
    requires
        s.wrap matches Some(m) && m.wf(),
        s.active is Some,
        s.pending is Some,
    ensures
        s.wrap->0.has_pos(s.ticked(area).active->0.cursor),
{
    let m = s.wrap->0;
    let dir = s.pending->0;
    let next = s.ticked_scroll(area, dir);
    let row = match dir {
        AutoScroll::Up => if next == s.scroll {
            0
        } else {
            next
        },
        AutoScroll::Down => if next == s.scroll {
            m.total_rows() - 1
        } else {
            greatest(next + area.height - 1, 0)
        },
    };
    lemma_rows_before(m, 0, m.lines.len() as int);
    lemma_row_line(m, row);
    let i = m.line_at(row);
    assert(m.lines[i].len() <= usize::MAX);
    let r = row - m.rows_before(i);
    assert(r * m.wrap_width() >= 0) by (nonlinear_arith)
        requires
            r >= 0,
            m.wrap_width() >= 0,
    ;
}

/// Scrolling moves the offset by as many rows as it is told, not past the start
/// and not past the end, and changes nothing else. As long as neither is reached,
/// scrolling back undoes it.
pub proof fn law_scrolling_adds(s: PanelState, delta: int, height: u16)
    ensures
        ({
            let next = s.scrolled_by(delta, height);
            let max = s.max_scroll(height);
            &&& 0 <= s.scroll + delta <= max ==> next.scroll == s.scroll + delta
            &&& s.scroll + delta < 0 ==> next.scroll == 0
            &&& s.scroll + delta > max ==> next.scroll == max
            &&& next.wrap == s.wrap && next.mode == s.mode && next.marker == s.marker
            &&& next.active == s.active && next.extras == s.extras && next.pending == s.pending
            &&& s.scroll <= max && 0 <= s.scroll + delta <= max ==> next.scrolled_by(-delta, height)
                == s
        }),
{
}

/// A drag selects from the position under the pointer where it was begun to the
/// one under the pointer where it is now, and leaves the other regions alone.
pub proof fn law_drag_selects_from_start_to_pointer(
    s: PanelState,
    area: Rect,
    from: (u16, u16),
    to: (u16, u16),
)
    requires
        s.wrap is Some,
        area.y <= to.1 < area.y + area.height,
        to.1 < u16::MAX,
    ensures
        ({
            let begun = s.begun(area, from);
            let dragged = begun.dragged(area, to);
            let anchor = s.pos_under(area, from);
            let cursor = s.pos_under(area, to);
            &&& begun.active == Some(Region { anchor, cursor: anchor })
            &&& dragged.active == Some(Region { anchor, cursor })
            &&& begun.pending is None && dragged.pending is None
            &&& begun.extras == s.extras && dragged.extras == s.extras
            &&& begun.wrap == s.wrap && dragged.wrap == s.wrap
            &&& begun.scroll == s.scroll && dragged.scroll == s.scroll
            &&& begun.mode == s.mode && begun.marker == s.marker
        }),
{
}

/// Setting the active region aside changes neither what is copied nor what is
/// highlighted, and ends scrolling; it stays when the next region is begun.
pub proof fn law_setting_aside_keeps_the_selection(
    s: PanelState,
    exclude: Set<TextPos>,
    area: Rect,
    point: (u16, u16),
)
    ensures
        ({
            let next = s.set_aside();
            &&& next.active is None
            &&& s.active is Some ==> next.pending is None
            &&& s.active is None ==> next == s
            &&& next.wrap == s.wrap && next.scroll == s.scroll
            &&& next.mode == s.mode && next.marker == s.marker
            &&& next.parts(exclude) == s.parts(exclude)
            &&& next.cells(area) == s.cells(area)
            &&& next.begun(area, point).extras == s.regions()
        }),
{
}

/// Clearing leaves nothing to copy and nothing highlighted, and the text, its
/// layout and the scroll offset as they are.
pub proof fn law_clearing_leaves_the_text(s: PanelState, exclude: Set<TextPos>, area: Rect)
    ensures
        ({
            let next = s.cleared();
            &&& next.regions().len() == 0
            &&& next.parts(exclude).len() == 0
            &&& next.cells(area).len() == 0
            &&& next.pending is None
            &&& next.wrap == s.wrap && next.scroll == s.scroll
            &&& next.mode == s.mode && next.marker == s.marker
        }),
{
}

/// A new panel has no text, nothing selected and nothing to copy, and is at the top.
pub proof fn law_new_panel_is_empty(exclude: Set<TextPos>, area: Rect)
    ensures
        empty_panel().wrap is None,
        empty_panel().total_rows() == 0,
        empty_panel().scroll == 0,
        empty_panel().regions().len() == 0,
        empty_panel().parts(exclude).len() == 0,
        empty_panel().cells(area).len() == 0,
        empty_panel().pending is None,
        empty_panel().mode == WrapMode::Wrap,
        empty_panel().marker is None,
{
}

} // verus!
