//! Scrollbars.

use paperboy_tui::geometry::Rect;
use paperboy_tui::scrollbar::{
    render_scrollbar, scroll_for_track_row, ScrollbarOrientation, ScrollbarStyle, Thumb,
};
use paperboy_tui::style::Style;
use ratatui::buffer::Buffer;
use ratatui::widgets::{Scrollbar, ScrollbarState, StatefulWidget};

fn blank_buffer(area: Rect) -> Buffer {
    Buffer::empty(ratatui::layout::Rect::new(
        area.x,
        area.y,
        area.width,
        area.height,
    ))
}

/// Draws a thumb the way an application does.
fn paint(area: Rect, buf: &mut Buffer, thumb: Option<Thumb>, style: &ScrollbarStyle) {
    assert_eq!(style.orientation, ScrollbarOrientation::VerticalRight);
    if let Some(thumb) = thumb {
        let mut state = ScrollbarState::new(thumb.content_length).position(thumb.position);
        let bar = Scrollbar::new(ratatui::widgets::ScrollbarOrientation::VerticalRight)
            .begin_symbol(style.begin_symbol.as_deref())
            .end_symbol(style.end_symbol.as_deref())
            .track_symbol(style.track_symbol.as_deref())
            .thumb_symbol(style.thumb_symbol.as_str());
        let area = ratatui::layout::Rect::new(area.x, area.y, area.width, area.height);
        StatefulWidget::render(bar, area, buf, &mut state);
    }
}

fn track() -> Rect {
    // A one-column-wide, 11-row track anchored below the top border.
    Rect::new(40, 2, 1, 11)
}

#[test]
fn track_row_maps_endpoints_and_midpoint() {
    let t = track();
    // Top of the track -> no scroll; bottom -> full scroll.
    assert_eq!(scroll_for_track_row(t, t.y, 100), 0);
    assert_eq!(scroll_for_track_row(t, t.y + t.height - 1, 100), 100);
    // Middle row (5 of 10 steps) -> half.
    assert_eq!(scroll_for_track_row(t, t.y + 5, 100), 50);
}

#[test]
fn track_row_clamps_out_of_bounds_rows() {
    let t = track();
    // Above the track reads as the top, far below as the bottom.
    assert_eq!(scroll_for_track_row(t, 0, 100), 0);
    assert_eq!(scroll_for_track_row(t, 500, 100), 100);
}

#[test]
fn track_row_is_zero_when_nothing_to_scroll() {
    assert_eq!(scroll_for_track_row(track(), 5, 0), 0);
    assert_eq!(scroll_for_track_row(Rect::new(0, 0, 1, 0), 5, 100), 0);
}

#[test]
fn render_is_a_no_op_when_content_fits_or_area_empty() {
    let area = Rect::new(0, 0, 1, 10);
    let mut buf = blank_buffer(area);
    // Fits: total <= capacity -> nothing drawn (buffer stays blank).
    let style = ScrollbarStyle::default();
    paint(area, &mut buf, render_scrollbar(area, 10, 10, 0), &style);
    let blank = blank_buffer(area);
    assert_eq!(buf, blank);
    // Empty area -> also a no-op.
    let none = Rect::new(0, 0, 0, 0);
    paint(none, &mut buf, render_scrollbar(none, 100, 10, 0), &style);
    assert_eq!(buf, blank);
}

#[test]
fn render_draws_a_thumb_when_content_overflows() {
    let area = Rect::new(0, 0, 1, 10);
    let mut buf = blank_buffer(area);
    let style = ScrollbarStyle::default();
    paint(area, &mut buf, render_scrollbar(area, 100, 10, 0), &style);
    // At least one cell must now carry the thumb glyph.
    let painted: String = (0..area.height)
        .map(|y| buf[(0, y)].symbol().to_string())
        .collect();
    assert!(
        painted.contains('\u{2588}'),
        "a scrollable panel must paint a thumb: {painted:?}"
    );
}

/// The proportion as a calculation in double precision gives it.
fn in_doubles(rel: u16, steps: u16, max: u16) -> u16 {
    (((f64::from(rel) / f64::from(steps)) * f64::from(max)).round() as u16).min(max)
}

#[test]
fn proportions_are_those_of_double_precision() {
    for height in 2..60u16 {
        let track = Rect::new(0, 0, 1, height);
        for row in 0..height {
            for max in 1..400u16 {
                assert_eq!(
                    scroll_for_track_row(track, row, max),
                    in_doubles(row, height - 1, max),
                    "height={height} row={row} max={max}"
                );
            }
        }
    }
    // A half that doubles make slightly less than one.
    assert_eq!(scroll_for_track_row(Rect::new(0, 0, 1, 11), 7, 45), 31);
    assert_eq!(scroll_for_track_row(Rect::new(0, 0, 1, 11), 1, 45), 5);
}

#[test]
fn proportions_hold_for_the_largest_tracks() {
    let mut seed: u32 = 12345;
    for _ in 0..20_000 {
        seed = seed.wrapping_mul(1_664_525).wrapping_add(1_013_904_223);
        let height = ((seed >> 16) as u16).max(2);
        seed = seed.wrapping_mul(1_664_525).wrapping_add(1_013_904_223);
        let row = ((seed >> 16) as u16) % height;
        seed = seed.wrapping_mul(1_664_525).wrapping_add(1_013_904_223);
        let max = ((seed >> 16) as u16).max(1);
        let track = Rect {
            x: 0,
            y: 0,
            width: 1,
            height,
        };
        assert_eq!(scroll_for_track_row(track, row, max), in_doubles(row, height - 1, max));
    }
}

#[test]
fn a_track_of_one_row_scrolls_to_the_top() {
    assert_eq!(scroll_for_track_row(Rect::new(0, 3, 1, 1), 9, 100), 0);
}

#[test]
fn the_thumb_is_what_does_not_fit() {
    let area = Rect::new(0, 0, 1, 10);
    let thumb = render_scrollbar(area, 100, 10, 33).unwrap();
    assert_eq!((thumb.content_length, thumb.position), (90, 33));
    assert_eq!(render_scrollbar(Rect::new(0, 0, 1, 0), 100, 10, 0), None);
}

#[test]
fn the_usual_scrollbar_is_a_line_with_a_solid_thumb() {
    let style = ScrollbarStyle::default().clone();
    assert_eq!(style.track_symbol.as_deref(), Some("\u{2502}"));
    assert_eq!(style.thumb_symbol, "\u{2588}");
    assert_eq!((style.begin_symbol, style.end_symbol), (None, None));
    assert_eq!((style.track_style, style.thumb_style), (Style::default(), Style::default()));
}

#[test]
fn a_lower_row_never_scrolls_less() {
    for height in 0..30u16 {
        let track = Rect::new(0, 4, 1, height);
        for max in [0, 1, 7, 45, 1000, 65_535] {
            for row in 0..40u16 {
                assert!(
                    scroll_for_track_row(track, row, max)
                        <= scroll_for_track_row(track, row + 1, max)
                );
            }
        }
    }
}
