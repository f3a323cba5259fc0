//! Panels with several selected regions.

use std::sync::Arc;

use paperboy_tui::geometry::Rect;
use paperboy_tui::multiselect::{AutoScroll, Motion, MultiSelectPanel};
use paperboy_tui::posset::PosSet;
use paperboy_tui::scrollbar::Thumb;
use paperboy_tui::style::{Color, Line, Span, Style};
use paperboy_tui::wrapcache::{TextPos, WrapMarker, WrapMode};
use ratatui::buffer::Buffer;
use ratatui::widgets::{Scrollbar, ScrollbarOrientation, ScrollbarState, StatefulWidget};

fn blank_buffer(area: Rect) -> Buffer {
    Buffer::empty(ratatui::layout::Rect::new(
        area.x,
        area.y,
        area.width,
        area.height,
    ))
}

/// Draws a thumb the way an application does.
fn paint_scrollbar(thumb: Option<Thumb>, area: Rect, buf: &mut Buffer) {
    if let Some(thumb) = thumb {
        let mut state = ScrollbarState::new(thumb.content_length).position(thumb.position);
        let bar = Scrollbar::new(ScrollbarOrientation::VerticalRight)
            .begin_symbol(None)
            .end_symbol(None)
            .track_symbol(Some("\u{2502}"))
            .thumb_symbol("\u{2588}");
        let area = ratatui::layout::Rect::new(area.x, area.y, area.width, area.height);
        StatefulWidget::render(bar, area, buf, &mut state);
    }
}

fn panel(text: &str, width: usize) -> MultiSelectPanel {
    let mut p = MultiSelectPanel::new();
    p.set_content(Arc::from(text), width);
    p
}

// A 40-wide, 10-high panel anchored at the origin.
fn area() -> Rect {
    Rect::new(0, 0, 40, 10)
}

#[test]
fn mouse_drag_selects_a_run_within_one_line() {
    let mut p = panel("hello world", 40);
    p.begin(area(), (0, 0)); // 'h'
    p.drag(area(), (4, 0)); // through 'hello' (inclusive of col 4)
    assert_eq!(p.selected_text(None).as_deref(), Some("hello"));
    assert!(p.has_selection());
}

#[test]
fn clear_drops_all_regions() {
    let mut p = panel("hello world", 40);
    p.begin(area(), (0, 0));
    p.drag(area(), (5, 0));
    p.clear();
    assert!(!p.has_selection());
    assert_eq!(p.selected_text(None), None);
}

#[test]
fn multiple_regions_copy_in_start_order_regardless_of_creation_order() {
    // Two lines; select the SECOND line's word first, then the FIRST.
    let mut p = panel("alpha\nbravo", 40);
    // Region A: "bravo" on line 1.
    p.begin(area(), (0, 1));
    p.drag(area(), (5, 1));
    p.finalize_active();
    // Region B: "alpha" on line 0.
    p.begin(area(), (0, 0));
    p.drag(area(), (5, 0));
    // Ordered by start -> alpha (line 0) before bravo (line 1).
    assert_eq!(p.selected_parts(None), vec!["alpha", "bravo"]);
    assert_eq!(p.selected_text(None).as_deref(), Some("alpha\n\nbravo"));
}

#[test]
fn keyboard_extend_grows_the_active_region() {
    let mut p = panel("hello world", 40);
    p.begin(area(), (0, 0)); // caret at 'h', empty selection
    p.extend(Motion::Right, area());
    p.extend(Motion::Right, area());
    // anchor col 0 ..= cursor col 2 -> "hel"
    assert_eq!(p.selected_text(None).as_deref(), Some("hel"));
}

#[test]
fn drag_past_bottom_edge_autoscrolls_and_extends() {
    // 30 short lines into a 10-row window: dragging below the panel
    // scrolls down and keeps extending the selection.
    let body: String = (0..30)
        .map(|i| format!("line{i}"))
        .collect::<Vec<_>>()
        .join("\n");
    let mut p = panel(&body, 40);
    p.begin(area(), (0, 0)); // start at top
    assert_eq!(p.scroll(), 0);
    // Drag below the panel's bottom edge (area.y + height = 10).
    p.drag(area(), (0, 10));
    assert!(p.has_pending_autoscroll());
    assert!(p.scroll() > 0, "auto-scrolled down");
    // Idle ticks keep scrolling toward the bottom.
    for _ in 0..40 {
        p.autoscroll_tick(area());
    }
    assert_eq!(p.scroll(), p.max_scroll(area().height));
    // The selection now reaches the last line.
    let text = p.selected_text(None).unwrap();
    assert!(text.starts_with("line0"));
    assert!(text.contains("line29"));
}

#[test]
fn end_drag_stops_autoscroll_but_keeps_the_selection() {
    let body: String = (0..30)
        .map(|i| format!("line{i}"))
        .collect::<Vec<_>>()
        .join("\n");
    let mut p = panel(&body, 40);
    p.begin(area(), (0, 0));
    p.drag(area(), (0, 10));
    assert!(p.has_pending_autoscroll());
    p.end_drag();
    assert!(!p.has_pending_autoscroll());
    assert!(p.has_selection());
}

#[test]
fn scroll_helpers_clamp_to_content() {
    let body: String = (0..30)
        .map(|i| format!("line{i}"))
        .collect::<Vec<_>>()
        .join("\n");
    let mut p = panel(&body, 40);
    assert_eq!(p.total_rows(), 30);
    assert_eq!(p.max_scroll(10), 20);
    p.set_scroll(999);
    assert_eq!(p.clamp_scroll(10), 20);
    assert_eq!(p.scroll(), 20);
    p.scroll_by(-5, 10);
    assert_eq!(p.scroll(), 15);
    p.scroll_by(100, 10);
    assert_eq!(p.scroll(), 20);
}

#[test]
fn exclude_drops_specific_positions_from_copied_text() {
    let mut p = panel("a!bc", 40);
    p.begin(area(), (0, 0));
    p.drag(area(), (4, 0));
    let mut ex = PosSet::new();
    ex.insert(TextPos::new(0, 1)); // the '!'
    assert_eq!(p.selected_text(Some(&ex)).as_deref(), Some("abc"));
}

#[test]
fn styled_content_selects_on_the_plain_text() {
    let green = Style {
        fg: Some(Color::Green),
        ..Style::default()
    };
    let lines = vec![Line {
        spans: vec![
            Span::styled("key".to_string(), green),
            Span::raw(": v".to_string()),
        ],
    }];
    let mut p = MultiSelectPanel::new();
    p.set_styled_content(&lines, 40);
    p.begin(area(), (0, 0));
    p.drag(area(), (2, 0)); // "key" (inclusive of col 2)
    assert_eq!(p.selected_text(None).as_deref(), Some("key"));
    // Rendered row keeps the colour.
    let rows = p.visible_rows(10);
    assert_eq!(rows[0].spans[0].style.fg, Some(Color::Green));
}

#[test]
fn active_and_finalized_selections_round_trip_programmatically() {
    let mut p = panel("alpha\nbravo", 40);
    assert_eq!(p.active_selection(), None);
    assert!(p.finalized_selections().is_empty());

    p.set_active_selection(TextPos::new(0, 0), TextPos::new(0, 4));
    assert_eq!(
        p.active_selection(),
        Some((TextPos::new(0, 0), TextPos::new(0, 4)))
    );
    // Inclusive of the cursor column -> "alpha".
    assert_eq!(p.selected_text(None).as_deref(), Some("alpha"));

    p.push_finalized(TextPos::new(1, 0), TextPos::new(1, 4));
    assert_eq!(
        p.finalized_selections(),
        vec![(TextPos::new(1, 0), TextPos::new(1, 4))]
    );
    assert_eq!(p.selected_parts(None), vec!["alpha", "bravo"]);
}

#[test]
fn wrap_accessor_exposes_the_live_layout() {
    let p = panel("hello world", 40);
    let wrap = p.wrap().expect("content was set");
    assert_eq!(wrap.line_text(0), "hello world");
}

#[test]
fn start_autoscroll_drives_autoscroll_tick() {
    let body: String = (0..30)
        .map(|i| format!("line{i}"))
        .collect::<Vec<_>>()
        .join("\n");
    let mut p = panel(&body, 40);
    p.set_active_selection(TextPos::new(0, 0), TextPos::new(0, 0));
    p.start_autoscroll(AutoScroll::Down);
    assert!(p.has_pending_autoscroll());
    p.autoscroll_tick(area());
    assert_eq!(p.scroll(), 1);
}

#[test]
fn wrap_marker_is_drawn_on_wrapped_rows_but_not_the_last() {
    // Width 4 with a reserved marker column -> wraps at 3 chars.
    let mut p = MultiSelectPanel::new();
    p.set_wrap_marker(Some(WrapMarker::default()));
    p.set_content(Arc::from("abcdef"), 4);
    assert_eq!(p.wrap_marker(), Some(WrapMarker::default()));

    let rows = p.visible_rows(10);
    assert_eq!(rows.len(), 2, "'abcdef' wraps to two rows at width 3");
    // The first (continued) row ends with the marker glyph...
    let first_last = &rows[0].spans[rows[0].spans.len() - 1];
    assert_eq!(first_last.content, WrapMarker::default().glyph.to_string());
    // ...the final row does not (nothing continues after it).
    let second_last = &rows[1].spans[rows[1].spans.len() - 1];
    assert_ne!(second_last.content, WrapMarker::default().glyph.to_string());

    // The marker column is purely visual: it never maps to a character,
    // so selecting the whole logical line still yields exactly the text.
    p.set_active_selection(TextPos::new(0, 0), TextPos::new(0, 5));
    assert_eq!(p.selected_text(None).as_deref(), Some("abcdef"));
}

#[test]
fn wrap_marker_survives_styled_content() {
    let mut p = MultiSelectPanel::new();
    p.set_wrap_marker(Some(WrapMarker::default()));
    let lines = vec![Line {
        spans: vec![Span::raw("abcdef".to_string())],
    }];
    p.set_styled_content(&lines, 4);
    let rows = p.visible_rows(10);
    assert_eq!(rows.len(), 2);
    let first_last = &rows[0].spans[rows[0].spans.len() - 1];
    assert_eq!(first_last.content, WrapMarker::default().glyph.to_string());
}

#[test]
fn scroll_to_track_row_maps_a_click_to_the_panels_scroll() {
    // 40 one-char rows in a 10-row viewport -> max_scroll 30.
    let body: String = (0..40).map(|i| format!("line{i}\n")).collect();
    let mut p = panel(&body, 40);
    // The scrollbar track is 10 rows tall (the viewport height).
    let track = Rect::new(39, 0, 1, 10);
    // A click at the very bottom of the track jumps to max scroll.
    p.scroll_to_track_row(track, 9);
    assert_eq!(p.scroll(), p.max_scroll(10));
    // A click at the top returns to zero.
    p.scroll_to_track_row(track, 0);
    assert_eq!(p.scroll(), 0);
}

#[test]
fn render_scrollbar_paints_a_thumb_only_when_content_overflows() {
    let long: String = (0..40).map(|i| format!("line{i}\n")).collect();
    let mut p = panel(&long, 40);
    p.clamp_scroll(10);
    let area = Rect::new(0, 0, 1, 10);
    let mut buf = blank_buffer(area);
    paint_scrollbar(p.render_scrollbar(area), area, &mut buf);
    let painted: String = (0..area.height)
        .map(|y| buf[(0, y)].symbol().to_string())
        .collect();
    assert!(
        painted.contains('\u{2588}'),
        "overflowing content shows a thumb"
    );

    // A panel whose content fits draws nothing.
    let mut short = panel("only one line", 40);
    short.clamp_scroll(10);
    let mut blank = blank_buffer(area);
    paint_scrollbar(short.render_scrollbar(area), area, &mut blank);
    assert_eq!(blank, blank_buffer(area));
}

fn pos(line: usize, col: usize) -> TextPos {
    TextPos::new(line, col)
}

fn numbered(n: usize) -> String {
    (0..n)
        .map(|i| format!("line{i}"))
        .collect::<Vec<_>>()
        .join("\n")
}

#[test]
fn a_new_panel_is_empty() {
    let p = MultiSelectPanel::default();
    assert!(!p.has_content());
    assert!(p.wrap().is_none());
    assert_eq!(p.whole_text(), None);
    assert_eq!(p.total_rows(), 0);
    assert_eq!(p.max_scroll(0), 0);
    assert!(p.visible_rows(5).is_empty());
    assert!(p.highlight_regions(area()).is_empty());
    assert!(p.selected_parts(None).is_empty());
    assert!(!p.has_selection());
}

#[test]
fn without_a_text_beginning_a_selection_does_nothing() {
    let mut p = MultiSelectPanel::new();
    p.set_active_selection(pos(1, 1), pos(2, 2));
    p.start_autoscroll(AutoScroll::Up);
    p.begin(area(), (3, 3));
    assert_eq!(p.active_selection(), Some((pos(1, 1), pos(2, 2))));
    assert!(p.has_pending_autoscroll());
}

#[test]
fn without_an_active_region_nothing_is_dragged_extended_or_set_aside() {
    let mut p = panel("hello world", 40);
    p.start_autoscroll(AutoScroll::Down);
    p.drag(area(), (3, 0));
    p.extend(Motion::Right, area());
    p.finalize_active();
    assert_eq!(p.active_selection(), None);
    assert!(p.finalized_selections().is_empty());
    assert!(p.has_pending_autoscroll());
    p.autoscroll_tick(area());
    assert!(!p.has_pending_autoscroll());
    assert_eq!(p.scroll(), 0);
}

#[test]
fn the_selection_stays_when_the_text_is_wrapped_anew() {
    let text: Arc<str> = Arc::from("hello brave new world");
    let mut p = MultiSelectPanel::new();
    p.set_content(Arc::clone(&text), 40);
    p.set_active_selection(pos(0, 6), pos(0, 10));
    for width in [1, 3, 7, 40] {
        p.set_content(Arc::clone(&text), width);
        assert_eq!(p.selected_text(None).as_deref(), Some("brave"));
    }
    p.set_wrap_mode(WrapMode::Clip);
    assert_eq!(p.wrap_mode(), WrapMode::Clip);
    p.set_content(text, 3);
    assert_eq!(p.selected_text(None).as_deref(), Some("brave"));
    assert_eq!(p.total_rows(), 1);
    assert_eq!(p.whole_text(), Some("hello brave new world"));
}

#[test]
fn coloured_text_is_selected_without_its_colours() {
    let mut p = MultiSelectPanel::new();
    p.set_ansi_content(Arc::from("\x1b[31mred\x1b[0m plain"), 40);
    p.set_active_selection(pos(0, 2), pos(0, 5));
    assert_eq!(p.selected_text(None).as_deref(), Some("d pl"));
    assert_eq!(p.visible_rows(1)[0].spans[0].style.fg, Some(Color::Red));
    assert_eq!(p.whole_text(), Some("red plain"));
}

#[test]
fn motions_cross_lines_and_keep_the_column_where_they_can() {
    let mut p = panel("abc\n\nde", 40);
    let mut at = |from: TextPos, motion: Motion| {
        p.set_active_selection(pos(0, 0), from);
        p.extend(motion, area());
        p.active_selection().unwrap().1
    };
    assert_eq!(at(pos(0, 2), Motion::Right), pos(1, 0));
    assert_eq!(at(pos(1, 0), Motion::Right), pos(2, 0));
    assert_eq!(at(pos(2, 1), Motion::Right), pos(2, 1));
    assert_eq!(at(pos(2, 0), Motion::Left), pos(1, 0));
    assert_eq!(at(pos(1, 0), Motion::Left), pos(0, 2));
    assert_eq!(at(pos(0, 0), Motion::Left), pos(0, 0));
    assert_eq!(at(pos(0, 2), Motion::Down), pos(1, 0));
    assert_eq!(at(pos(2, 1), Motion::Up), pos(1, 0));
    assert_eq!(at(pos(2, 1), Motion::Down), pos(2, 1));
    assert_eq!(at(pos(0, 1), Motion::Up), pos(0, 1));
    assert_eq!(at(pos(usize::MAX, usize::MAX), Motion::Right), pos(usize::MAX, usize::MAX));
}

#[test]
fn the_live_end_stays_in_sight() {
    let mut p = panel(&numbered(30), 40);
    p.set_active_selection(pos(0, 0), pos(0, 0));
    for _ in 0..15 {
        p.extend(Motion::Down, area());
    }
    assert_eq!(p.active_selection().unwrap().1.line, 15);
    assert_eq!(p.scroll(), 6);
    for _ in 0..12 {
        p.extend(Motion::Up, area());
    }
    assert_eq!(p.scroll(), 3);
    p.set_scroll(999);
    p.extend(Motion::Up, area());
    assert_eq!(p.scroll(), 2);
    let flat = Rect::new(0, 0, 40, 0);
    p.set_scroll(999);
    p.extend(Motion::Up, flat);
    assert_eq!(p.scroll(), 999);
}

#[test]
fn a_drag_above_the_panel_scrolls_to_the_very_start() {
    let mut p = panel(&numbered(30), 40);
    p.set_scroll(2);
    let low = Rect::new(0, 5, 40, 10);
    p.begin(low, (3, 9));
    assert_eq!(p.active_selection(), Some((pos(6, 3), pos(6, 3))));
    p.drag(low, (3, 4));
    assert_eq!((p.scroll(), p.active_selection().unwrap().1), (1, pos(1, 0)));
    p.autoscroll_tick(low);
    assert_eq!((p.scroll(), p.active_selection().unwrap().1), (0, pos(0, 0)));
    p.autoscroll_tick(low);
    assert_eq!((p.scroll(), p.active_selection().unwrap().1), (0, pos(0, 0)));
    assert!(p.has_pending_autoscroll());
    p.drag(low, (3, 6));
    assert!(!p.has_pending_autoscroll());
    assert_eq!(p.active_selection().unwrap().1, pos(1, 3));
}

#[test]
fn a_drag_below_the_panel_ends_with_the_last_line() {
    let mut p = panel("ab\ncd\nefg", 40);
    let two = Rect::new(0, 0, 40, 2);
    p.begin(two, (0, 0));
    p.drag(two, (0, 2));
    assert_eq!((p.scroll(), p.active_selection().unwrap().1), (1, pos(2, 3)));
    p.autoscroll_tick(two);
    assert_eq!((p.scroll(), p.active_selection().unwrap().1), (1, pos(2, 3)));
    assert_eq!(p.selected_text(None).as_deref(), Some("ab\ncd\nefg"));
}

#[test]
fn scrolling_never_leaves_the_range() {
    let mut p = panel(&numbered(30), 40);
    p.scroll_by(i32::MAX, 10);
    assert_eq!(p.scroll(), 20);
    p.scroll_by(i32::MIN, 10);
    assert_eq!(p.scroll(), 0);
    assert_eq!(p.max_scroll(31), 0);
    p.set_scroll(u16::MAX);
    p.start_autoscroll(AutoScroll::Down);
    p.set_active_selection(pos(0, 0), pos(0, 0));
    p.autoscroll_tick(area());
    assert_eq!(p.scroll(), 20);
    let huge = panel(&"x\n".repeat(70_000), 40);
    assert_eq!(huge.total_rows(), 70_000);
    assert_eq!(huge.max_scroll(10), 65_525);
}

#[test]
fn regions_that_start_at_one_place_keep_their_order() {
    let mut p = panel("abcdef", 40);
    p.push_finalized(pos(0, 2), pos(0, 4));
    p.push_finalized(pos(0, 2), pos(0, 3));
    p.push_finalized(pos(0, 5), pos(0, 1));
    p.set_active_selection(pos(0, 2), pos(0, 2));
    assert_eq!(p.selected_parts(None), vec!["bcdef", "cde", "cd", "c"]);
}

#[test]
fn blank_regions_are_not_copied() {
    let mut p = panel("a  b", 40);
    p.push_finalized(pos(0, 1), pos(0, 2));
    assert!(p.has_selection());
    assert_eq!(p.selected_text(None), None);
    p.push_finalized(pos(0, 0), pos(0, 0));
    assert_eq!(p.selected_text(None).as_deref(), Some("a"));
}

#[test]
fn all_regions_are_highlighted_the_active_one_last() {
    let mut p = panel("abc\ndef", 40);
    p.set_active_selection(pos(0, 0), pos(0, 0));
    p.push_finalized(pos(1, 2), pos(1, 1));
    p.push_finalized(pos(0, 2), pos(1, 0));
    assert_eq!(
        p.highlight_regions(area()),
        vec![(1, 1, 3), (0, 2, 3), (1, 0, 1), (0, 0, 1)]
    );
    p.set_scroll(1);
    assert_eq!(p.highlight_regions(area()), vec![(0, 1, 3), (0, 0, 1)]);
}

#[test]
fn the_thumb_follows_the_scroll_offset() {
    let mut p = panel(&numbered(30), 40);
    p.set_scroll(7);
    let track = Rect::new(39, 0, 1, 10);
    let thumb = p.render_scrollbar(track).unwrap();
    assert_eq!((thumb.content_length, thumb.position), (20, 7));
    assert_eq!(p.render_scrollbar(Rect::new(39, 0, 0, 10)), None);
    assert_eq!(p.render_scrollbar(Rect::new(39, 0, 1, 30)), None);
    p.scroll_to_track_row(track, 4);
    assert_eq!(p.scroll(), 9);
}

#[test]
fn a_live_end_that_offsets_do_not_reach_scrolls_to_the_last_one() {
    let mut p = panel(&"x\n".repeat(70_000), 40);
    p.set_active_selection(pos(0, 0), pos(65_533, 0));
    p.extend(Motion::Down, area());
    assert_eq!(p.scroll(), 65_525);
    assert_eq!(p.visible_rows(10).len(), 10);
    p.set_active_selection(pos(0, 0), pos(69_998, 0));
    p.set_scroll(0);
    p.extend(Motion::Down, area());
    assert_eq!(p.scroll(), 65_525);
    p.extend(Motion::Up, area());
    assert_eq!(p.scroll(), 65_525);
}
