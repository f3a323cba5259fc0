//! Selecting, copying and highlighting.

use std::sync::Arc;

use paperboy_tui::geometry::Rect;
use paperboy_tui::posset::PosSet;
use paperboy_tui::selection::{
    extract_text, highlight_cells, ordered, point_to_textpos, strip_positions,
};
use paperboy_tui::wrapcache::{PanelWrap, TextPos, WrapMarker, WrapMode};

fn rect() -> Rect {
    Rect::new(2, 1, 20, 5) // x=2, y=1, width=20, height=5
}

fn wrap() -> PanelWrap {
    PanelWrap::build(
        Arc::from("first line here\nsecond\n\nfourth line of text\nfifth"),
        20,
    )
}

#[test]
fn point_to_textpos_maps_terminal_coords_into_logical_positions() {
    let area = rect();
    let w = wrap();
    assert_eq!(
        point_to_textpos((2, 1), area, 0, &w),
        TextPos::new(0, 0),
        "top-left of the area"
    );
    // row 2 (local row 1) is "second"; col 5 (local col 3) lands inside it.
    assert_eq!(
        point_to_textpos((5, 2), area, 0, &w),
        TextPos::new(1, 3),
        "interior point offsets by area origin"
    );
    // Above/left of the area clamps to the nearest edge, not negative.
    assert_eq!(point_to_textpos((0, 0), area, 0, &w), TextPos::new(0, 0));
}

#[test]
fn single_row_selection_takes_only_the_selected_columns() {
    let w = wrap();
    let text = extract_text(TextPos::new(0, 2), TextPos::new(0, 5), &w, None).unwrap();
    assert_eq!(text, "rst "); // chars 2..6 of "first line here"
}

#[test]
fn multi_row_selection_takes_the_rest_of_the_first_line_full_middle_lines_and_the_start_of_the_last()
 {
    let w = wrap();
    let text = extract_text(TextPos::new(0, 6), TextPos::new(3, 5), &w, None).unwrap();
    assert_eq!(text, "line here\nsecond\n\nfourth");
}

#[test]
fn dragging_backwards_still_resolves_to_the_same_selection() {
    let w = wrap();
    let forward = extract_text(TextPos::new(0, 2), TextPos::new(1, 4), &w, None).unwrap();
    let backward = extract_text(TextPos::new(1, 4), TextPos::new(0, 2), &w, None).unwrap();
    assert_eq!(forward, backward);
}

#[test]
fn a_blank_or_empty_selection_extracts_to_none() {
    let w = wrap();
    // A click with no drag (anchor == cursor) on a single character still
    // yields that one character, but a selection entirely inside the
    // blank line yields None.
    assert_eq!(
        extract_text(TextPos::new(2, 0), TextPos::new(2, 0), &w, None),
        None
    );
    let empty = PanelWrap::build(Arc::from(""), 20);
    assert_eq!(
        extract_text(TextPos::new(0, 0), TextPos::new(0, 0), &empty, None),
        None,
        "no content"
    );
}

#[test]
fn extract_text_excludes_only_the_positions_given() {
    let w = wrap();
    let mut exclude = PosSet::new();
    // "first line here" — drop the 'f' (col 0) but keep everything else.
    exclude.insert(TextPos::new(0, 0));
    let text =
        extract_text(TextPos::new(0, 0), TextPos::new(0, 5), &w, Some(&exclude)).unwrap();
    assert_eq!(
        text, "irst ",
        "the excluded column is dropped, all others are kept"
    );
}

#[test]
fn strip_positions_removes_only_excluded_characters() {
    let mut exclude = PosSet::new();
    exclude.insert(TextPos::new(0, 5)); // the '!' in "hello!world"
    let out = strip_positions("hello!world\nsecond!line", &exclude);
    assert_eq!(
        out, "helloworld\nsecond!line",
        "only the recorded position is stripped, other lines untouched"
    );
}

#[test]
fn strip_positions_is_a_no_op_with_an_empty_exclude_set() {
    let exclude = PosSet::new();
    let out = strip_positions("unchanged!text\n", &exclude);
    assert_eq!(out, "unchanged!text\n");
}

#[test]
fn highlight_cells_skip_empty_rows_and_report_absolute_terminal_columns() {
    let w = wrap();
    let area = rect();
    let cells = highlight_cells(TextPos::new(0, 6), TextPos::new(3, 5), &w, area, 0);
    // The blank middle row (row 2) contributes nothing to highlight.
    assert_eq!(
        cells,
        vec![
            (area.y, area.x + 6, area.x + 15),
            (area.y + 1, area.x, area.x + 6),
            (area.y + 3, area.x, area.x + 6),
        ]
    );
}

#[test]
fn highlight_cells_only_scans_lines_intersecting_the_visible_window() {
    // A huge body with a selection spanning nearly all of it: the
    // highlight scan must still return promptly and only report rows
    // actually within the visible scroll window.
    let body: String = (0..100_000).map(|i| format!("line {i}\n")).collect();
    let w = PanelWrap::build(Arc::from(body), 20);
    let area = Rect::new(0, 0, 20, 5);
    let cells = highlight_cells(
        TextPos::new(0, 0),
        TextPos::new(99_999, 3),
        &w,
        area,
        50_000,
    );
    assert_eq!(
        cells.len(),
        5,
        "exactly the 5 visible rows, not the whole selected range"
    );
    assert_eq!(cells[0].0, 0);
    assert_eq!(cells[4].0, 4);
}

#[test]
fn highlight_cells_handles_a_selection_wholly_off_screen() {
    let w = wrap();
    let area = rect();
    // Selection entirely above the current scroll window.
    let cells = highlight_cells(TextPos::new(0, 0), TextPos::new(0, 3), &w, area, 10);
    assert!(cells.is_empty());
}

/// One line of thousands of rows costs no more than the rows in sight.
#[test]
fn highlight_cells_bounds_the_scan_even_when_one_line_has_thousands_of_wrapped_rows() {
    let body: String = "x".repeat(500_000); // one line, 500_000 / 20 = 25_000 wrapped rows
    let w = PanelWrap::build(Arc::from(body), 20);
    let area = Rect::new(0, 0, 20, 5);
    // Select the whole line, but scroll deep into its middle.
    let cells = highlight_cells(
        TextPos::new(0, 0),
        TextPos::new(0, 499_999),
        &w,
        area,
        12_000,
    );
    assert_eq!(
        cells.len(),
        5,
        "exactly the 5 visible rows of this one giant line, not all 25,000"
    );
    assert_eq!(cells[0].0, area.y);
    assert_eq!(cells[4].0, area.y + 4);
    // Every reported row should be a full-width row (the whole line is selected).
    for &(_, from, to) in &cells {
        assert_eq!(
            to - from,
            area.width,
            "each visible row of a fully-selected giant line is fully highlighted"
        );
    }
}

#[test]
fn points_outside_the_area_count_as_its_nearest_cell() {
    let w = PanelWrap::build(Arc::from("0123456789ABCDE\nsecond"), 10);
    let area = Rect::new(2, 1, 10, 2);
    // Right of the area: the last column of the row, not the next row.
    assert_eq!(point_to_textpos((50, 1), area, 0, &w), TextPos::new(0, 9));
    // Below the area: its last row.
    assert_eq!(point_to_textpos((2, 50), area, 0, &w), TextPos::new(0, 10));
    assert_eq!(point_to_textpos((0, 0), area, 1, &w), TextPos::new(0, 10));
    // An area without cells has only its corner.
    let none = Rect::new(5, 5, 0, 0);
    assert_eq!(point_to_textpos((9, 9), none, 2, &w), TextPos::new(1, 0));
}

#[test]
fn positions_are_put_in_order() {
    let a = TextPos::new(1, 9);
    let b = TextPos::new(2, 0);
    assert_eq!(ordered(a, b), (a, b));
    assert_eq!(ordered(b, a), (a, b));
    assert_eq!(ordered(a, a), (a, a));
}

#[test]
fn a_selection_may_reach_past_the_text() {
    let w = wrap();
    assert_eq!(
        extract_text(TextPos::new(4, 2), TextPos::new(usize::MAX, usize::MAX), &w, None).unwrap(),
        "fth"
    );
    assert_eq!(
        extract_text(TextPos::new(1, 2), TextPos::new(1, usize::MAX), &w, None).unwrap(),
        "cond"
    );
    assert_eq!(
        extract_text(TextPos::new(7, 0), TextPos::new(9, 0), &w, None),
        None
    );
}

#[test]
fn the_selected_text_does_not_depend_on_the_layout() {
    let text = "first line here\nsecond\n\nfourth line of text\nfifth";
    let a = TextPos::new(0, 6);
    let b = TextPos::new(3, 5);
    let expected = extract_text(a, b, &wrap(), None);
    for width in 0..25usize {
        for mode in [WrapMode::Wrap, WrapMode::Clip] {
            let w = PanelWrap::build_with(Arc::from(text), width, mode);
            assert_eq!(extract_text(a, b, &w, None), expected);
        }
    }
}

#[test]
fn exactly_white_space_is_blank() {
    for c in '\0'..=char::MAX {
        if c == '\n' {
            continue;
        }
        let w = PanelWrap::build(Arc::from(c.to_string()), 5);
        let pos = TextPos::new(0, 0);
        let nothing = extract_text(pos, pos, &w, None).is_none();
        assert_eq!(nothing, c.is_whitespace(), "{c:?}");
    }
}

#[test]
fn stripping_keeps_every_line_ending() {
    let mut exclude = PosSet::new();
    exclude.insert(TextPos::new(0, 1));
    exclude.insert(TextPos::new(0, 2)); // behind the first line's end
    exclude.insert(TextPos::new(2, 0));
    assert_eq!(strip_positions("ab\r\ncd\r\ne\r", &exclude), "a\r\ncd\r\n\r");
    assert_eq!(strip_positions("ab\n\n\n", &exclude), "a\n\n\n");
    exclude.insert(TextPos::new(2, 1)); // a return that ends no line
    assert_eq!(strip_positions("ab\r\ncd\r\ne\r", &exclude), "a\r\ncd\r\n");
    assert_eq!(strip_positions("", &exclude), "");
}

#[test]
fn a_set_of_positions_holds_what_was_put_in() {
    let mut set = PosSet::default();
    assert!(set.is_empty());
    assert!(set.insert(TextPos::new(1, 2)));
    assert!(!set.insert(TextPos::new(1, 2)));
    assert!(set.insert(TextPos::new(usize::MAX, usize::MAX)));
    assert!(!set.is_empty());
    assert!(set.contains(TextPos::new(1, 2)));
    assert!(set.contains(TextPos::new(usize::MAX, usize::MAX)));
    assert!(!set.contains(TextPos::new(2, 1)));
    assert!(!set.contains(TextPos::new(0, 2)));
}

#[test]
fn the_column_of_a_marker_is_not_highlighted() {
    let w = PanelWrap::build_with_marker(
        Arc::from("abcdefgh"),
        4,
        WrapMode::Wrap,
        Some(WrapMarker::default()),
    );
    let area = Rect::new(10, 20, 4, 5);
    let cells = highlight_cells(TextPos::new(0, 1), TextPos::new(0, 6), &w, area, 0);
    assert_eq!(cells, vec![(20, 11, 13), (21, 10, 13), (22, 10, 11)]);
}

#[test]
fn highlighting_is_limited_to_the_clipped_part_of_a_line() {
    let w = PanelWrap::build_with(Arc::from("abcdefgh\nij"), 4, WrapMode::Clip);
    let area = Rect::new(0, 0, 4, 5);
    let cells = highlight_cells(TextPos::new(1, 0), TextPos::new(0, 2), &w, area, 0);
    assert_eq!(cells, vec![(0, 2, 4), (1, 0, 1)]);
    let scrolled = highlight_cells(TextPos::new(0, 0), TextPos::new(1, 1), &w, area, 1);
    assert_eq!(scrolled, vec![(0, 0, 2)]);
    let none = Rect::new(0, 0, 0, 5);
    assert!(highlight_cells(TextPos::new(0, 0), TextPos::new(1, 1), &w, none, 0).is_empty());
    let flat = Rect::new(0, 0, 5, 0);
    assert!(highlight_cells(TextPos::new(0, 0), TextPos::new(1, 1), &w, flat, 0).is_empty());
}

#[test]
fn selecting_everything_copies_every_line() {
    let w = wrap();
    let last = TextPos::new(4, 5);
    let all = extract_text(TextPos::new(0, 0), last, &w, None).unwrap();
    assert_eq!(all, w.source());
}

#[test]
fn cells_are_highlighted_exactly_where_characters_are_selected() {
    let text = "0123456789\n\nabc\ndefghi";
    let area = Rect::new(3, 2, 5, 4);
    for (width, mode) in [(4, WrapMode::Wrap), (5, WrapMode::Wrap), (5, WrapMode::Clip)] {
        let w = PanelWrap::build_with(Arc::from(text), width, mode);
        let (a, b) = (TextPos::new(0, 2), TextPos::new(3, 3));
        for scroll in 0..8u16 {
            let cells = highlight_cells(a, b, &w, area, scroll);
            let rows = w.visible_window(scroll, area.height);
            for (k, row) in rows.iter().enumerate() {
                let shown: String = row.spans.iter().map(|s| s.content.as_str()).collect();
                for c in 0..shown.chars().count() {
                    let pos = w.row_col_to_textpos(scroll as u32 + k as u32, c);
                    let (y, x) = (area.y + k as u16, area.x + c as u16);
                    let lit = cells.iter().any(|&(row, from, to)| row == y && from <= x && x < to);
                    assert_eq!(lit, a <= pos && pos <= b, "{pos:?}");
                }
            }
        }
    }
}
