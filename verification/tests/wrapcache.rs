//! The wrap cache: lines, rows, windows and positions.

use std::sync::Arc;

use paperboy_tui::style::{Color, Line, Span, Style, BOLD, DIM};
use paperboy_tui::wrapcache::{PanelWrap, TextKind, TextPos, WrapMarker, WrapMode};

fn colored(text: &str, color: Color) -> Span {
    let style = Style {
        fg: Some(color),
        ..Style::default()
    };
    Span::styled(text.to_string(), style)
}

fn line_of(spans: Vec<Span>) -> Line {
    Line { spans }
}

fn wrap(text: &str, width: usize) -> PanelWrap {
    PanelWrap::build(Arc::from(text), width)
}

fn clip(text: &str, width: usize) -> PanelWrap {
    PanelWrap::build_with(Arc::from(text), width, WrapMode::Clip)
}

fn row_text(line: &Line) -> String {
    line.spans.iter().map(|s| s.content.as_str()).collect()
}

#[test]
fn clip_mode_maps_one_row_per_line_regardless_of_length() {
    // Two lines, each far wider than the width; clip keeps them 1 row each.
    let w = clip("0123456789ABCDE\nshort", 10);
    assert_eq!(w.line_count(), 2);
    assert_eq!(w.total_rows(), 2, "one row per raw line, no wrapping");
    // Row 0 is the (clipped) first 10 chars of the long line; row 1 is the
    // whole short line.
    let rows = w.visible_window(0, 5);
    assert_eq!(rows.len(), 2);
    assert_eq!(row_text(&rows[0]), "0123456789", "clipped to width");
    assert_eq!(row_text(&rows[1]), "short");
}

#[test]
fn clip_mode_row_and_textpos_map_straight_through() {
    let w = clip("0123456789ABCDE\nsecond", 10);
    // Wrapped row == line index; column maps 1:1 (no wrap offset).
    assert_eq!(w.textpos_to_row_col(TextPos::new(1, 3)), (1, 3));
    assert_eq!(w.row_col_to_textpos(1, 3), TextPos::new(1, 3));
    // A column past the clip width still resolves to the same line.
    assert_eq!(w.row_col_to_textpos(0, 4), TextPos::new(0, 4));
}

#[test]
fn clip_mode_scrolls_by_whole_lines() {
    let body: String = (0..1000).map(|i| format!("line {i}\n")).collect();
    let w = clip(&body, 4); // width 4 clips "line N" to "line"
    let rows = w.visible_window(500, 3);
    assert_eq!(rows.len(), 3);
    assert_eq!(row_text(&rows[0]), "line");
    // Each visible line is clipped to 4 chars but still one row per line.
    assert_eq!(w.total_rows(), 1000);
}

#[test]
fn splits_lines_like_str_lines_including_trailing_newline_and_crlf() {
    let w = wrap("a\r\nb\nc", 10);
    assert_eq!(w.line_count(), 3);
    assert_eq!(w.line_text(0), "a");
    assert_eq!(w.line_text(1), "b");
    assert_eq!(w.line_text(2), "c");

    let w2 = wrap("a\nb\n", 10);
    assert_eq!(
        w2.line_count(),
        2,
        "no trailing empty line after a final \\n, matching str::lines()"
    );
}

#[test]
fn empty_body_has_one_line_and_one_row() {
    let w = wrap("", 10);
    assert_eq!(w.line_count(), 1);
    assert_eq!(w.total_rows(), 1);
}

#[test]
fn total_rows_accounts_for_wrapping_long_lines() {
    // "0123456789ABCDE" (15 chars) at width 10 -> 2 rows; "" -> 1 row.
    let w = wrap("0123456789ABCDE\n", 10);
    assert_eq!(w.total_rows(), 2);
}

#[test]
fn row_col_and_textpos_roundtrip_for_a_wrapped_line() {
    let w = wrap("0123456789ABCDE", 10); // rows 0: "0123456789", row 1: "ABCDE"
    assert_eq!(w.row_col_to_textpos(0, 3), TextPos::new(0, 3));
    assert_eq!(w.row_col_to_textpos(1, 2), TextPos::new(0, 12));
    assert_eq!(w.textpos_to_row_col(TextPos::new(0, 3)), (0, 3));
    assert_eq!(w.textpos_to_row_col(TextPos::new(0, 12)), (1, 2));
    // A position exactly at the line's own length (cursor "past the end").
    assert_eq!(w.textpos_to_row_col(TextPos::new(0, 15)), (1, 5));
}

#[test]
fn locate_binary_search_finds_the_right_line_for_a_huge_body() {
    let body: String = (0..100_000).map(|i| format!("line {i}\n")).collect();
    let w = wrap(&body, 20);
    // "line 50000" is 10 chars; at width 20 that's 1 row per line, so
    // wrapped-row 50_000 should land exactly on line 50_000, col 0.
    assert_eq!(w.row_col_to_textpos(50_000, 0), TextPos::new(50_000, 0));
}

#[test]
fn visible_window_only_wraps_the_requested_rows() {
    let body: String = (0..1000).map(|i| format!("line {i}\n")).collect();
    let w = wrap(&body, 20);
    let rows = w.visible_window(500, 5);
    assert_eq!(rows.len(), 5);
    let text: Vec<String> = rows
        .iter()
        .map(|l| l.spans.iter().map(|s| s.content.as_str()).collect())
        .collect();
    assert_eq!(
        text,
        vec!["line 500", "line 501", "line 502", "line 503", "line 504"]
    );
}

/// A single raw line with no newlines at all (e.g. a huge base64 blob or
/// minified JSON payload) must still produce a correct, small window
/// regardless of where the scroll offset falls inside it — and must do
/// so without ever wrapping the whole line (this used to cost O(line
/// length) per redraw and grind the app to a halt; see also the timing
/// regression test below).
#[test]
fn visible_window_is_correct_for_a_single_enormous_unbroken_line() {
    let body: String = "abcdefghij".repeat(200_000); // 2,000,000 chars, one line
    let w = wrap(&body, 10);

    let top = w.visible_window(0, 3);
    assert_eq!(top.len(), 3);
    let row0: String = top[0].spans.iter().map(|s| s.content.as_str()).collect();
    assert_eq!(row0, "abcdefghij", "row 0 is chars [0, 10)");
    let row2: String = top[2].spans.iter().map(|s| s.content.as_str()).collect();
    assert_eq!(
        row2, "abcdefghij",
        "row 2 (chars [20, 30)) lands mid-repeat but still aligned"
    );

    // Deep into the line: row 50_000 covers chars [500_000, 500_010).
    let mid = w.visible_window(50_000, 2);
    assert_eq!(mid.len(), 2);
    let mid_row: String = mid[0].spans.iter().map(|s| s.content.as_str()).collect();
    assert_eq!(mid_row, "abcdefghij");

    // Repeated calls with the same (scroll, height) hit the cache and
    // must return identical content.
    let again = w.visible_window(50_000, 2);
    let again_text: Vec<String> = again
        .iter()
        .map(|l| l.spans.iter().map(|s| s.content.as_str()).collect())
        .collect();
    let mid_text: Vec<String> = mid
        .iter()
        .map(|l| l.spans.iter().map(|s| s.content.as_str()).collect())
        .collect();
    assert_eq!(again_text, mid_text);
}

/// Drawing the same rows of one huge line again and again stays cheap.
#[test]
fn visible_window_stays_fast_across_many_redraws_of_a_single_huge_line() {
    let body: String = "x".repeat(5_000_000);
    let w = wrap(&body, 78);

    let start = std::time::Instant::now();
    for _ in 0..200 {
        let rows = w.visible_window(0, 30);
        assert_eq!(
            rows.len(),
            30,
            "the first 30 wrapped rows of a 5,000,000-char line at width 78"
        );
    }
    let elapsed = start.elapsed();
    assert!(
        elapsed < std::time::Duration::from_secs(2),
        "200 redraws of a single 5MB line took {elapsed:?} — expected a small fraction of a second"
    );
}

#[test]
fn rebuild_if_needed_skips_rebuilding_on_an_unchanged_pointer_and_width() {
    let source: Arc<str> = Arc::from("hello\nworld");
    let mut cache: Option<PanelWrap> = None;
    PanelWrap::rebuild_if_needed(&mut cache, &source, 10);
    let first_ptr = cache.as_ref().unwrap().source().as_ptr();
    // Same Arc, same width -> must not rebuild (same backing pointer).
    PanelWrap::rebuild_if_needed(&mut cache, &source, 10);
    assert_eq!(cache.as_ref().unwrap().source().as_ptr(), first_ptr);
    // Width changed -> must rebuild.
    PanelWrap::rebuild_if_needed(&mut cache, &source, 20);
    assert_eq!(cache.as_ref().unwrap().width(), 20);
    // A genuinely new Arc (even with equal content) -> must rebuild too,
    // since a new response/edit always allocates fresh.
    let source2: Arc<str> = Arc::from("hello\nworld");
    PanelWrap::rebuild_if_needed(&mut cache, &source2, 20);
    assert!(std::ptr::eq(cache.as_ref().unwrap().source(), &*source2));
}

#[test]
fn build_styled_records_plain_geometry_and_keeps_span_colours() {
    // Two styled logical lines; spans carry colour that must survive.
    let lines = vec![
        line_of(vec![
            colored("key", Color::Green),
            Span::raw(": value".to_string()),
        ]),
        line_of(vec![colored("second", Color::Blue)]),
    ];
    let w = PanelWrap::build_styled(&lines, 40);
    // Geometry/copy see the plain concatenated text, not the styling.
    assert_eq!(w.line_count(), 2);
    assert_eq!(w.line_text(0), "key: value");
    assert_eq!(w.line_char_len(0), 10);
    assert_eq!(w.source(), "key: value\nsecond");
    // Rendered rows keep their per-span colour.
    let rows = w.visible_window(0, 2);
    assert_eq!(row_text(&rows[0]), "key: value");
    assert_eq!(rows[0].spans[0].content.as_str(), "key");
    assert_eq!(rows[0].spans[0].style.fg, Some(Color::Green));
    assert_ne!(rows[0].spans[1].style.fg, Some(Color::Green));
    assert_eq!(rows[1].spans[0].style.fg, Some(Color::Blue));
}

#[test]
fn build_styled_colour_survives_wrapping() {
    // "greenlong" (9 chars) all one colour, wrapped at width 4 -> 3 rows.
    let lines = vec![line_of(vec![colored("greenlong", Color::Green)])];
    let w = PanelWrap::build_styled(&lines, 4);
    assert_eq!(w.total_rows(), 3);
    let rows = w.visible_window(0, 3);
    assert_eq!(row_text(&rows[0]), "gree");
    assert_eq!(rows[0].spans[0].style.fg, Some(Color::Green));
    assert_eq!(row_text(&rows[2]), "g");
    assert_eq!(rows[2].spans[0].style.fg, Some(Color::Green));
}



const RED_THEN_PLAIN: &str = "\x1b[31mred\x1b[0m plain";

#[test]
fn geometry_and_copy_use_the_stripped_text() {
    let w = PanelWrap::build_ansi(Arc::from(RED_THEN_PLAIN), 40, WrapMode::Wrap);
    // Selection/geometry see the plain text, not the escape sequences.
    assert_eq!(w.line_count(), 1);
    assert_eq!(w.line_text(0), "red plain");
    assert_eq!(w.line_char_len(0), 9);
}

#[test]
fn rendered_rows_keep_their_colour() {
    let w = PanelWrap::build_ansi(Arc::from(RED_THEN_PLAIN), 40, WrapMode::Wrap);
    let rows = w.visible_window(0, 1);
    assert_eq!(rows.len(), 1);
    assert_eq!(row_text(&rows[0]), "red plain");
    // First span is the red "red"; the rest is unstyled " plain".
    assert_eq!(rows[0].spans[0].content.as_str(), "red");
    assert_eq!(rows[0].spans[0].style.fg, Some(Color::Red));
    let plain: String = rows[0].spans[1..]
        .iter()
        .map(|s| s.content.as_str())
        .collect();
    assert_eq!(plain, " plain");
    assert_ne!(
        rows[0].spans[1].style.fg,
        Some(Color::Red),
        "the reset run is not red"
    );
}

#[test]
fn colour_survives_wrapping_across_a_row_boundary() {
    // "red" (3) + " plain" (6) = 9 chars; width 4 wraps to 3 rows.
    let w = PanelWrap::build_ansi(Arc::from(RED_THEN_PLAIN), 4, WrapMode::Wrap);
    assert_eq!(w.total_rows(), 3);
    let rows = w.visible_window(0, 3);
    assert_eq!(row_text(&rows[0]), "red ");
    // The 'd' at the wrap boundary keeps the red colour.
    assert_eq!(rows[0].spans[0].content.as_str(), "red");
    assert_eq!(rows[0].spans[0].style.fg, Some(Color::Red));
}

#[test]
fn clip_mode_keeps_colour_on_the_single_clipped_row() {
    let w = PanelWrap::build_ansi(Arc::from(RED_THEN_PLAIN), 4, WrapMode::Clip);
    assert_eq!(w.total_rows(), 1);
    let rows = w.visible_window(0, 5);
    assert_eq!(rows.len(), 1);
    assert_eq!(row_text(&rows[0]), "red ", "clipped to width 4");
    assert_eq!(rows[0].spans[0].style.fg, Some(Color::Red));
}

#[test]
fn ansi_and_plain_switch_forces_a_rebuild() {
    let raw: Arc<str> = Arc::from(RED_THEN_PLAIN);
    let mut cache: Option<PanelWrap> = None;
    PanelWrap::rebuild_if_needed_ansi(&mut cache, &raw, 40, WrapMode::Wrap);
    assert_eq!(cache.as_ref().unwrap().kind(), TextKind::Ansi);
    // Same Arc + width + mode -> no rebuild.
    let ptr = cache.as_ref().unwrap().source().as_ptr();
    PanelWrap::rebuild_if_needed_ansi(&mut cache, &raw, 40, WrapMode::Wrap);
    assert_eq!(cache.as_ref().unwrap().source().as_ptr(), ptr);
    // Switching to the plain builder must rebuild (styled -> unstyled).
    PanelWrap::rebuild_if_needed_with(&mut cache, &raw, 40, WrapMode::Wrap);
    assert_eq!(cache.as_ref().unwrap().kind(), TextKind::Plain);
}

fn window_texts(w: &PanelWrap, scroll: u16, height: u16) -> Vec<String> {
    w.visible_window(scroll, height).iter().map(row_text).collect()
}

#[test]
fn a_blank_line_takes_up_a_row_of_the_window() {
    let w = wrap("a\n\nb", 10);
    assert_eq!(w.total_rows(), 3);
    assert_eq!(window_texts(&w, 0, 5), vec!["a", "", "b"]);
    assert_eq!(window_texts(&w, 1, 1), vec![""]);
    assert_eq!(window_texts(&w, 2, 9), vec!["b"]);
    let empty = wrap("", 10);
    assert_eq!(window_texts(&empty, 0, 4), vec![""]);
    let styled = PanelWrap::build_styled(&[line_of(vec![]), line_of(vec![])], 10);
    assert_eq!(window_texts(&styled, 0, 4), vec!["", ""]);
}

#[test]
fn a_window_past_the_text_or_without_rows_is_empty() {
    let w = wrap("0123456789ABCDE", 10);
    assert!(w.visible_window(2, 5).is_empty());
    assert!(w.visible_window(u16::MAX, u16::MAX).is_empty());
    assert!(w.visible_window(0, 0).is_empty());
}

#[test]
fn a_panel_without_columns_shows_each_line_on_one_row() {
    let w = wrap("abc\ndefg", 0);
    assert_eq!(w.total_rows(), 2);
    assert_eq!(window_texts(&w, 0, 9), vec!["abc", "defg"]);
    assert_eq!(w.textpos_to_row_col(TextPos::new(1, 3)), (1, 3));
    let c = clip("abc\ndefg", 0);
    assert_eq!(window_texts(&c, 0, 9), vec!["", ""]);
}

#[test]
fn a_marker_takes_a_column_only_where_one_can_be_spared() {
    let marker = Some(WrapMarker::default());
    let w = PanelWrap::build_with_marker(Arc::from("abcdefg"), 4, WrapMode::Wrap, marker);
    assert_eq!(w.wrap_width(), 3);
    assert_eq!(window_texts(&w, 0, 9), vec!["abc↵", "def↵", "g"]);
    let narrow = PanelWrap::build_with_marker(Arc::from("ab"), 1, WrapMode::Wrap, marker);
    assert_eq!(narrow.wrap_width(), 1);
    assert_eq!(window_texts(&narrow, 0, 9), vec!["a", "b"]);
    let clipped = PanelWrap::build_with_marker(Arc::from("abcdefg"), 4, WrapMode::Clip, marker);
    assert_eq!(clipped.wrap_width(), 4);
    assert_eq!(window_texts(&clipped, 0, 9), vec!["abcd"]);
    assert_eq!(clipped.marker(), marker);
    assert_eq!(clipped.mode(), WrapMode::Clip);
}

#[test]
fn a_marker_is_a_span_of_its_own_style() {
    let marker = WrapMarker::builder().glyph('>').style(Style::default()).build();
    let w = PanelWrap::build_with_marker(Arc::from("abcd"), 3, WrapMode::Wrap, Some(marker));
    let rows = w.visible_window(0, 2);
    assert_eq!(rows[0].spans.len(), 2);
    assert_eq!(rows[0].spans[1], Span::raw(">".to_string()));
    assert_eq!(rows[1].spans, vec![Span::raw("cd".to_string())]);
    let usual = WrapMarker::default();
    assert_eq!(usual.glyph, '\u{21b5}');
    assert_eq!(usual.style.fg, Some(Color::DarkGray));
    assert_eq!(usual.style.add_modifier, DIM);
}

#[test]
fn every_position_is_found_again_from_its_cell() {
    let text = "0123456789\n\nab\ncdefg";
    for width in 0..12usize {
        for mode in [WrapMode::Wrap, WrapMode::Clip] {
            for marker in [None, Some(WrapMarker::default())] {
                let w = PanelWrap::build_with_marker(Arc::from(text), width, mode, marker);
                for line in 0..w.line_count() {
                    for col in 0..=w.line_char_len(line) {
                        let pos = TextPos::new(line, col);
                        let (row, cell) = w.textpos_to_row_col(pos);
                        assert_eq!(w.row_col_to_textpos(row, cell), pos, "width {width}");
                    }
                }
            }
        }
    }
}

#[test]
fn positions_outside_the_text_count_as_the_nearest_in_it() {
    let w = wrap("abcde\nfgh", 3);
    assert_eq!(w.textpos_to_row_col(TextPos::new(9, 1)), (2, 1));
    assert_eq!(w.textpos_to_row_col(TextPos::new(0, 99)), (1, 2));
    assert_eq!(w.row_col_to_textpos(0, usize::MAX), TextPos::new(0, 5));
    assert_eq!(w.row_col_to_textpos(u32::MAX, usize::MAX), TextPos::new(1, 3));
    assert_eq!(w.row_col_to_textpos(u32::MAX, 0), TextPos::new(1, 3));
    assert_eq!(w.line_char_len(7), 0);
}

#[test]
fn the_end_of_a_full_last_row_stays_on_it() {
    let w = wrap("abcdef", 3);
    assert_eq!(w.textpos_to_row_col(TextPos::new(0, 6)), (1, 3));
    assert_eq!(w.textpos_to_row_col(TextPos::new(0, 3)), (1, 0));
}

#[test]
fn lines_of_several_bytes_per_character_are_cut_where_they_should_be() {
    let w = wrap("né\r\n漢字かな\nß", 2);
    assert_eq!(w.line_count(), 3);
    assert_eq!(w.line_text(0), "né");
    assert_eq!(w.line_text(1), "漢字かな");
    assert_eq!(w.line_text(2), "ß");
    assert_eq!(window_texts(&w, 0, 9), vec!["né", "漢字", "かな", "ß"]);
    assert_eq!(w.source(), "né\r\n漢字かな\nß");
}

#[test]
fn a_carriage_return_counts_unless_a_line_feed_follows() {
    let w = wrap("a\rb\r\n\r", 10);
    assert_eq!(w.line_count(), 2);
    assert_eq!(w.line_text(0), "a\rb");
    assert_eq!(w.line_text(1), "\r");
    let twice = wrap("a\r\r\nb", 10);
    assert_eq!(twice.line_text(0), "a\r");
}

#[test]
fn styled_lines_may_hold_line_feeds_and_empty_spans() {
    let lines = vec![
        line_of(vec![
            Span::raw(String::new()),
            colored("a\nb", Color::Red),
            colored("c", Color::Red),
        ]),
        line_of(vec![]),
    ];
    let w = PanelWrap::build_styled_with_marker(&lines, 9, WrapMode::Clip, None);
    assert_eq!(w.line_count(), 2);
    assert_eq!(w.line_text(0), "a\nbc");
    assert_eq!(w.source(), "a\nbc\n");
    assert_eq!(w.kind(), TextKind::Styled);
    let rows = w.visible_window(0, 2);
    assert_eq!(rows[0].spans, vec![colored("a\nbc", Color::Red)]);
    assert!(rows[1].spans.is_empty());
    let none = PanelWrap::build_styled(&[], 5);
    assert_eq!((none.line_count(), none.source()), (1, ""));
}

#[test]
fn every_colour_and_modifier_of_an_escape_sequence_is_read() {
    let cases = [
        ("30", Color::Black),
        ("31", Color::Red),
        ("32", Color::Green),
        ("33", Color::Yellow),
        ("34", Color::Blue),
        ("35", Color::Magenta),
        ("36", Color::Cyan),
        ("37", Color::Gray),
        ("90", Color::DarkGray),
        ("91", Color::LightRed),
        ("92", Color::LightGreen),
        ("93", Color::LightYellow),
        ("94", Color::LightBlue),
        ("95", Color::LightMagenta),
        ("96", Color::LightCyan),
        ("97", Color::White),
        ("39", Color::Reset),
        ("38;5;200", Color::Indexed(200)),
        ("38;2;1;2;3", Color::Rgb(1, 2, 3)),
    ];
    for (code, color) in cases {
        let raw = format!("\x1b[{code}mx");
        let w = PanelWrap::build_ansi(Arc::from(raw.as_str()), 9, WrapMode::Wrap);
        assert_eq!(w.visible_window(0, 1)[0].spans[0].style.fg, Some(color), "{code}");
    }
    let w = PanelWrap::build_ansi(Arc::from("\x1b[1;2;44mx"), 9, WrapMode::Wrap);
    let style = w.visible_window(0, 1)[0].spans[0].style;
    assert_eq!(style.bg, Some(Color::Blue));
    assert_eq!(style.add_modifier, BOLD | DIM);
}

#[test]
fn escape_sequences_leave_the_lines_as_they_are_otherwise() {
    let raw: Arc<str> = Arc::from("\x1b[31mone\r\n\ntwo\x1b[0m\r\n");
    let w = PanelWrap::build_ansi(Arc::clone(&raw), 9, WrapMode::Wrap);
    assert_eq!(w.line_count(), 3);
    assert_eq!(w.line_text(0), "one");
    assert_eq!(w.line_text(1), "");
    assert_eq!(w.line_text(2), "two");
    assert_eq!(w.source(), "one\n\ntwo");
    assert_eq!(w.visible_window(0, 1)[0].spans, vec![colored("one", Color::Red)]);
    let empty = PanelWrap::build_ansi(Arc::from(""), 9, WrapMode::Wrap);
    assert_eq!((empty.line_count(), empty.total_rows()), (1, 1));
}

#[test]
fn lines_read_elsewhere_lose_the_return_they_end_in() {
    let lines = vec![
        line_of(vec![colored("ab", Color::Red), colored("\r", Color::Blue)]),
        line_of(vec![colored("c\r", Color::Green)]),
        line_of(vec![]),
    ];
    let w = PanelWrap::build_read(Arc::from("whatever"), &lines, 9, WrapMode::Wrap, None);
    assert_eq!(w.source(), "ab\nc\n");
    let rows = w.visible_window(0, 3);
    assert_eq!(rows[0].spans, vec![colored("ab", Color::Red)]);
    assert_eq!(rows[1].spans, vec![colored("c", Color::Green)]);
    assert!(rows[2].spans.is_empty());
}

#[test]
fn a_cache_is_built_anew_when_anything_about_it_changes() {
    let text: Arc<str> = Arc::from("abc");
    let w = PanelWrap::build(Arc::clone(&text), 5);
    assert!(!w.is_stale(true, TextKind::Plain, 5, WrapMode::Wrap, None));
    assert!(w.is_stale(false, TextKind::Plain, 5, WrapMode::Wrap, None));
    assert!(w.is_stale(true, TextKind::Ansi, 5, WrapMode::Wrap, None));
    assert!(w.is_stale(true, TextKind::Plain, 6, WrapMode::Wrap, None));
    assert!(w.is_stale(true, TextKind::Plain, 5, WrapMode::Clip, None));
    let marker = Some(WrapMarker::default());
    assert!(w.is_stale(true, TextKind::Plain, 5, WrapMode::Wrap, marker));
    let mut cache = Some(w);
    PanelWrap::rebuild_if_needed_marker(&mut cache, &text, 5, WrapMode::Clip, marker);
    let c = cache.as_ref().unwrap();
    assert_eq!((c.mode(), c.marker()), (WrapMode::Clip, marker));
    PanelWrap::rebuild_if_needed_ansi_marker(&mut cache, &text, 5, WrapMode::Wrap, marker);
    assert_eq!(cache.as_ref().unwrap().kind(), TextKind::Ansi);
    assert_eq!(cache.as_ref().unwrap().source(), "abc");
}

#[test]
fn the_same_window_is_the_same_again_whatever_was_asked_between() {
    let w = wrap("one\ntwo\nthree\nfour", 3);
    let first = w.visible_window(1, 2);
    let other = w.visible_window(0, 3);
    assert_eq!(w.visible_window(1, 2), first);
    assert_eq!(w.visible_window(1, 2), first);
    assert_eq!(w.visible_window(0, 3), other);
    assert_eq!(window_texts(&w, 1, 3), vec!["two", "thr", "ee"]);
}

#[test]
fn modes_wrap_unless_told_otherwise() {
    assert_eq!(WrapMode::default(), WrapMode::Wrap);
}

#[test]
fn a_cache_that_still_fits_is_left_untouched() {
    let text: Arc<str> = Arc::from("ab\x1b[31mc");
    let marker = Some(WrapMarker::default());
    let mut cache = Some(PanelWrap::build_ansi(Arc::clone(&text), 5, WrapMode::Clip));
    let shown = cache.as_ref().unwrap().source().as_ptr();
    PanelWrap::rebuild_ansi_unless_fresh(&mut cache, true, &text, 5, WrapMode::Clip, None);
    assert_eq!(cache.as_ref().unwrap().source().as_ptr(), shown);
    PanelWrap::rebuild_ansi_unless_fresh(&mut cache, false, &text, 5, WrapMode::Clip, None);
    assert_ne!(cache.as_ref().unwrap().source().as_ptr(), shown);
    PanelWrap::rebuild_unless_fresh(&mut cache, true, &text, 5, WrapMode::Clip, marker);
    assert_eq!(cache.as_ref().unwrap().kind(), TextKind::Plain);
    let first: Arc<str> = Arc::from("abc");
    let other: Arc<str> = Arc::from("abc");
    let mut plain = Some(PanelWrap::build(Arc::clone(&first), 5));
    PanelWrap::rebuild_unless_fresh(&mut plain, true, &other, 5, WrapMode::Wrap, None);
    assert!(std::ptr::eq(plain.as_ref().unwrap().source(), &*first));
    PanelWrap::rebuild_unless_fresh(&mut plain, false, &other, 5, WrapMode::Wrap, None);
    assert!(std::ptr::eq(plain.as_ref().unwrap().source(), &*other));
    PanelWrap::rebuild_unless_fresh(&mut plain, true, &other, 6, WrapMode::Wrap, None);
    assert_eq!(plain.as_ref().unwrap().width(), 6);
    let mut none: Option<PanelWrap> = None;
    PanelWrap::rebuild_unless_fresh(&mut none, true, &other, 6, WrapMode::Wrap, None);
    assert_eq!(none.as_ref().unwrap().source(), "abc");
}
