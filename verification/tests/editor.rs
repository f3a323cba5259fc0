//! The editor.

use paperboy_tui::editor::{
    apply_edit_key, render_clipped_line, render_editor, render_line_field, Editor, EditorTheme,
    TruncationMarker,
};
use paperboy_tui::geometry::Rect;
use paperboy_tui::key::{KeyCode, KeyEvent};
use paperboy_tui::style::{Color, Style};
use ratatui::buffer::Buffer;
use ratatui::widgets::{Paragraph, Widget};

/// The cells of one row of `width` columns after a clipped line was drawn the
/// way an application does.
fn painted_line(width: u16, area: Rect, text: &str, marker: Option<TruncationMarker>) -> String {
    let mut buf = Buffer::empty(ratatui::layout::Rect::new(0, 0, width, 1));
    if let Some(view) = render_clipped_line(area, text, Color::White, marker) {
        let place = ratatui::layout::Rect::new(area.x, area.y, area.width, area.height);
        Paragraph::new(text.to_string()).render(place, &mut buf);
        if let Some(cell) = view.marker {
            let at = cell.area;
            let place = ratatui::layout::Rect::new(at.x, at.y, at.width, at.height);
            Paragraph::new(cell.marker.glyph.to_string()).render(place, &mut buf);
        }
    }
    (0..width).map(|x| buf[(x, 0)].symbol().to_string()).collect()
}

#[test]
fn new_places_cursor_at_end_and_splits_lines() {
    let ed = Editor::new("ab\ncd", true);
    assert_eq!(ed.lines, vec!["ab".to_string(), "cd".to_string()]);
    assert_eq!((ed.row, ed.col), (1, 2));
    assert_eq!(ed.text(), "ab\ncd");
}

#[test]
fn blank_is_one_empty_single_line() {
    let ed = Editor::blank();
    assert_eq!(ed.lines, vec![String::new()]);
    assert!(!ed.multiline);
    assert_eq!(ed.text(), "");
}

#[test]
fn insert_and_backspace_track_the_cursor() {
    let mut ed = Editor::blank();
    ed.insert('h');
    ed.insert('i');
    assert_eq!(ed.text(), "hi");
    ed.backspace();
    assert_eq!(ed.text(), "h");
    assert_eq!(ed.col, 1);
}

#[test]
fn insert_str_types_each_character() {
    let mut ed = Editor::blank();
    ed.insert_str("hello");
    assert_eq!(ed.text(), "hello");
    assert_eq!(ed.col, 5);
}

#[test]
fn newline_only_splits_in_multiline_mode() {
    let mut single = Editor::new("ab", false);
    single.home();
    single.newline();
    assert_eq!(single.text(), "ab");

    let mut multi = Editor::new("ab", true);
    multi.home();
    multi.right();
    multi.newline();
    assert_eq!(multi.text(), "a\nb");
    assert_eq!((multi.row, multi.col), (1, 0));
}

#[test]
fn backspace_at_column_zero_joins_lines() {
    let mut ed = Editor::new("ab\ncd", true);
    ed.row = 1;
    ed.col = 0;
    ed.backspace();
    assert_eq!(ed.text(), "abcd");
    assert_eq!((ed.row, ed.col), (0, 2));
}

#[test]
fn movement_wraps_across_lines() {
    let mut ed = Editor::new("ab\ncd", true);
    ed.row = 1;
    ed.col = 0;
    ed.left();
    assert_eq!((ed.row, ed.col), (0, 2));
    ed.right();
    assert_eq!((ed.row, ed.col), (1, 0));
}

#[test]
fn home_and_end_jump_within_the_line() {
    let mut ed = Editor::new("hello", false);
    ed.home();
    assert_eq!(ed.col, 0);
    ed.end();
    assert_eq!(ed.col, 5);
}

#[test]
fn single_line_selection_extracts_the_covered_run() {
    let mut ed = Editor::new("hello world", false);
    ed.row = 0;
    ed.col = 0;
    ed.begin_selection_if_needed();
    ed.col = 5;
    assert_eq!(ed.selected_text().as_deref(), Some("hello"));
}

#[test]
fn multi_line_selection_joins_with_newlines() {
    let mut ed = Editor::new("first\nsecond\nthird", true);
    ed.row = 0;
    ed.col = 3;
    ed.begin_selection_if_needed();
    ed.row = 2;
    ed.col = 2;
    assert_eq!(ed.selected_text().as_deref(), Some("st\nsecond\nth"));
}

#[test]
fn collapsed_selection_yields_none() {
    let mut ed = Editor::new("hello", false);
    ed.begin_selection_if_needed();
    assert_eq!(ed.selection_range(), None);
    assert_eq!(ed.selected_text(), None);
}

#[test]
fn set_selecting_starts_and_clears() {
    let mut ed = Editor::new("hello", false);
    ed.set_selecting(true);
    assert!(ed.sel_anchor.is_some());
    ed.set_selecting(false);
    assert!(ed.sel_anchor.is_none());
}

#[test]
fn apply_edit_key_handles_typing_and_navigation() {
    let mut ed = Editor::new("hi", false);
    apply_edit_key(
        &mut ed,
        KeyEvent::new(KeyCode::Char('!'), false),
    );
    assert_eq!(ed.text(), "hi!");
    apply_edit_key(&mut ed, KeyEvent::new(KeyCode::Left, true));
    assert_eq!(ed.col, 0);
    apply_edit_key(
        &mut ed,
        KeyEvent::new(KeyCode::Right, true),
    );
    assert_eq!(ed.col, 3);
    apply_edit_key(
        &mut ed,
        KeyEvent::new(KeyCode::Backspace, false),
    );
    assert_eq!(ed.text(), "hi");
}

#[test]
fn point_to_row_col_maps_screen_space_back_to_text() {
    let ed = Editor::new("first\nsecond\nthird", true);
    // Small area anchored at (0, 0); cursor at end so viewport shows all.
    let area = Rect::new(0, 0, 40, 3);
    assert_eq!(ed.point_to_row_col((3, 0), area), (0, 3));
    assert_eq!(ed.point_to_row_col((100, 1), area), (1, 6)); // clamps to line end
}

#[test]
fn clipped_line_draws_marker_only_when_truncated() {
    let area = Rect::new(0, 0, 5, 1);
    let marker = Some(TruncationMarker::default());

    // Fits: no marker, text shown verbatim.
    let short = painted_line(5, area, "abc", marker);
    assert_eq!(short, "abc  ");

    // Too long: last visible column becomes the ellipsis marker.
    let long = painted_line(5, area, "abcdefgh", marker);
    assert_eq!(long, "abcd\u{2026}");

    // Too long but no marker requested: plain clip, no ellipsis.
    let plain = painted_line(5, area, "abcdefgh", None);
    assert_eq!(plain, "abcde");
}

fn theme() -> EditorTheme {
    EditorTheme {
        text: Color::White,
        panel: Color::Black,
        dim: Color::DarkGray,
        select_fg: Color::Black,
        select_bg: Color::Cyan,
    }
}

fn state(ed: &Editor) -> (String, usize, usize) {
    (ed.text(), ed.row, ed.col)
}

#[test]
fn typing_at_the_start_of_a_text() {
    let mut ed = Editor::new("hello", false);
    ed.home();
    ed.insert('>');
    ed.insert(' ');
    assert_eq!(ed.text(), "> hello");
}

#[test]
fn deleting_undoes_typing_and_breaking() {
    let mut ed = Editor::new("aé\nb", true);
    for row in 0..2usize {
        for col in 0..=ed.line_len(row) {
            ed.row = row;
            ed.col = col;
            let before = state(&ed);
            ed.insert('漢');
            ed.backspace();
            assert_eq!(state(&ed), before);
            ed.newline();
            assert_eq!(ed.lines.len(), 3);
            ed.backspace();
            assert_eq!(state(&ed), before);
        }
    }
    ed.row = 0;
    ed.col = 0;
    ed.backspace();
    assert_eq!(state(&ed), ("aé\nb".to_string(), 0, 0));
}

#[test]
fn a_column_past_the_end_counts_as_the_end() {
    let mut ed = Editor::new("ab", false);
    ed.col = 9;
    ed.insert('c');
    assert_eq!(state(&ed), ("abc".to_string(), 0, 10));
    ed.backspace();
    assert_eq!(state(&ed), ("abc".to_string(), 0, 9));
}

#[test]
fn steps_undo_each_other_and_stop_at_the_ends() {
    let mut ed = Editor::new("ab\n\ncd", true);
    ed.right();
    assert_eq!((ed.row, ed.col), (2, 2));
    let mut places = vec![(ed.row, ed.col)];
    for _ in 0..6 {
        ed.left();
        places.push((ed.row, ed.col));
    }
    assert_eq!((ed.row, ed.col), (0, 0));
    ed.left();
    assert_eq!((ed.row, ed.col), (0, 0));
    for place in places.iter().rev() {
        assert_eq!((ed.row, ed.col), *place);
        ed.right();
    }
}

#[test]
fn lines_up_and_down_are_entered_at_the_column_or_their_end() {
    let mut ed = Editor::new("long line\nab\nlonger", true);
    ed.row = 0;
    ed.col = 7;
    ed.up();
    assert_eq!((ed.row, ed.col), (0, 7));
    ed.down();
    assert_eq!((ed.row, ed.col), (1, 2));
    ed.down();
    assert_eq!((ed.row, ed.col), (2, 2));
    ed.down();
    assert_eq!((ed.row, ed.col), (2, 2));
    ed.col = 5;
    ed.up();
    assert_eq!((ed.row, ed.col), (1, 2));
}

#[test]
fn byte_positions_of_characters() {
    assert_eq!(Editor::byte_idx("aé漢z", 0), 0);
    assert_eq!(Editor::byte_idx("aé漢z", 2), 3);
    assert_eq!(Editor::byte_idx("aé漢z", 3), 6);
    assert_eq!(Editor::byte_idx("aé漢z", 4), 7);
    assert_eq!(Editor::byte_idx("aé漢z", 99), 7);
    assert_eq!(Editor::byte_idx("", 1), 0);
}

#[test]
fn a_selection_is_the_same_from_either_end() {
    let mut ed = Editor::new("first\nsecond\nthird", true);
    ed.row = 2;
    ed.col = 2;
    ed.begin_selection_if_needed();
    ed.row = 0;
    ed.col = 3;
    assert_eq!(ed.selection_range(), Some(((0, 3), (2, 2))));
    assert_eq!(ed.selected_text().as_deref(), Some("st\nsecond\nth"));
    ed.begin_selection_if_needed();
    assert_eq!(ed.sel_anchor, Some((2, 2)));
    ed.clear_selection();
    assert_eq!(ed.selected_text(), None);
}

#[test]
fn keys_without_a_meaning_do_nothing() {
    let mut ed = Editor::new("hi", false);
    for code in [KeyCode::Enter, KeyCode::Esc, KeyCode::Up, KeyCode::PageDown, KeyCode::Other] {
        apply_edit_key(&mut ed, KeyEvent::new(code, true));
    }
    assert_eq!(state(&ed), ("hi".to_string(), 0, 2));
    apply_edit_key(&mut ed, KeyEvent::new(KeyCode::Left, false));
    assert_eq!(ed.col, 1);
    apply_edit_key(&mut ed, KeyEvent::new(KeyCode::Right, false));
    assert_eq!(ed.col, 2);
    apply_edit_key(&mut ed, KeyEvent::new(KeyCode::Home, false));
    assert_eq!(ed.col, 0);
    apply_edit_key(&mut ed, KeyEvent::new(KeyCode::End, false));
    assert_eq!(ed.col, 2);
}

#[test]
fn the_cell_of_the_cursor_leads_back_to_it() {
    let ed = Editor::new("0123456789\nab\nx", true);
    for row in 0..3usize {
        for col in 0..=ed.line_len(row) {
            for (width, height) in [(1, 1), (4, 2), (20, 5)] {
                let mut ed = Editor::new("0123456789\nab\nx", true);
                ed.row = row;
                ed.col = col;
                let area = Rect::new(3, 7, width, height);
                let view = render_editor(area, &ed, &theme(), false).unwrap();
                assert!(view.cursor.0 >= 3 && view.cursor.0 < 3 + width);
                assert!(view.cursor.1 >= 7 && view.cursor.1 < 7 + height);
                assert_eq!(ed.point_to_row_col(view.cursor, area), (row, col));
            }
        }
    }
    assert_eq!(ed.point_to_row_col((0, 0), Rect::new(5, 5, 4, 2)), (0, 0));
}

#[test]
fn the_view_follows_the_cursor_and_shows_the_selection() {
    let mut ed = Editor::new("abcdefgh\nij\nklmnop", true);
    ed.row = 0;
    ed.col = 6;
    ed.begin_selection_if_needed();
    ed.row = 2;
    ed.col = 5;
    let area = Rect::new(10, 20, 4, 2);
    let view = render_editor(area, &ed, &theme(), false).unwrap();
    // Lines 1 and 2 are in sight, from column 2 on.
    assert_eq!(view.rows, vec!["", "mnop"]);
    assert_eq!(view.cursor, (13, 21));
    assert_eq!(view.selected, vec![(21, 10, 13)]);
    assert_eq!(view.style.fg, Some(Color::White));
    assert_eq!(view.selected_style.bg, Some(Color::Cyan));
    assert_eq!(view.selected_style.fg, Some(Color::Black));
    let all = render_editor(Rect::new(0, 0, 20, 9), &ed, &theme(), false).unwrap();
    assert_eq!(all.rows, vec!["abcdefgh", "ij", "klmnop"]);
    assert_eq!(all.selected, vec![(0, 6, 8), (1, 0, 2), (2, 0, 5)]);
    assert!(render_editor(Rect::new(0, 0, 0, 9), &ed, &theme(), false).is_none());
    assert!(render_editor(Rect::new(0, 0, 9, 0), &ed, &theme(), false).is_none());
}

#[test]
fn a_masked_text_shows_only_its_length() {
    let ed = Editor::new("sécret", false);
    let area = Rect::new(0, 0, 20, 1);
    let view = render_editor(area, &ed, &theme(), true).unwrap();
    assert_eq!(view.rows, vec!["\u{2022}".repeat(6)]);
    let field = render_line_field(area, &ed, &theme(), true, true).unwrap();
    assert_eq!(field.text, "\u{2022}".repeat(6));
}

#[test]
fn a_field_shows_the_part_around_the_cursor() {
    let mut ed = Editor::new("abcdefgh", false);
    let area = Rect::new(2, 3, 4, 1);
    let focused = render_line_field(area, &ed, &theme(), true, false).unwrap();
    assert_eq!(focused.text, "fgh");
    assert_eq!(focused.cursor, Some((5, 3)));
    assert_eq!((focused.style.fg, focused.style.bg), (Some(Color::White), Some(Color::Black)));
    ed.home();
    let other = render_line_field(area, &ed, &theme(), false, false).unwrap();
    assert_eq!(other.text, "abcd");
    assert_eq!(other.cursor, None);
    assert_eq!((other.style.fg, other.style.bg), (Some(Color::DarkGray), None));
    assert!(render_line_field(Rect::new(0, 0, 0, 1), &ed, &theme(), true, false).is_none());
}

#[test]
fn a_clipped_line_is_marked_in_its_last_column() {
    let marker = TruncationMarker::default();
    assert_eq!(marker.glyph, '\u{2026}');
    let area = Rect::new(4, 2, 3, 1);
    let view = render_clipped_line(area, "äöüß", Color::Red, Some(marker)).unwrap();
    assert_eq!(view.style, Style { fg: Some(Color::Red), ..Style::default() });
    let cell = view.marker.unwrap();
    assert_eq!(cell.area, Rect::new(6, 2, 1, 1));
    assert_eq!(cell.marker, marker);
    assert!(render_clipped_line(area, "äöü", Color::Red, Some(marker)).unwrap().marker.is_none());
    assert!(render_clipped_line(Rect::new(0, 0, 0, 1), "a", Color::Red, None).is_none());
}
