//! The colour picker.

use paperboy_tui::geometry::Rect;
use paperboy_tui::key::{KeyCode, KeyEvent};
use paperboy_tui::picker::{
    ColorPicker, ColorPickerAction, ColorPickerLabels, ColorPickerStyle, PlacedLine,
};
use paperboy_tui::style::{Color, Style, BOLD, DIM};
use ratatui::buffer::Buffer;
use ratatui::text::{Line, Span};
use ratatui::widgets::{Paragraph, Widget, Wrap};

/// The cells of `area`, row by row, after the lines were drawn the way an
/// application does.
fn painted(area: Rect, lines: &[PlacedLine]) -> String {
    let whole = ratatui::layout::Rect::new(area.x, area.y, area.width, area.height);
    let mut buf = Buffer::empty(whole);
    for placed in lines {
        let at = placed.area;
        let place = ratatui::layout::Rect::new(at.x, at.y, at.width, at.height);
        let spans: Vec<Span> = placed
            .line
            .spans
            .iter()
            .map(|s| Span::raw(s.content.clone()))
            .collect();
        let text = Paragraph::new(Line::from(spans));
        if placed.wrapped {
            text.wrap(Wrap { trim: true }).render(place, &mut buf);
        } else {
            text.render(place, &mut buf);
        }
    }
    let mut out = String::new();
    for y in 0..whole.height {
        for x in 0..whole.width {
            out.push_str(buf[(x, y)].symbol());
        }
        out.push('\n');
    }
    out
}

#[test]
fn adjust_clamps_and_targets_the_focused_channel() {
    let mut p = ColorPicker::new([10, 20, 30]);
    p.adjust(5);
    assert_eq!(p.rgb(), [15, 20, 30], "red is focused by default");
    p.adjust(-100);
    assert_eq!(p.rgb(), [0, 20, 30], "clamped at 0");
    p.focus_next_channel();
    p.adjust(300);
    assert_eq!(p.rgb(), [0, 255, 30], "green clamped at 255");
}

#[test]
fn channel_focus_saturates_at_both_ends() {
    let mut p = ColorPicker::new([0, 0, 0]);
    p.focus_prev_channel();
    assert_eq!(p.channel(), 0, "can't go before red");
    p.focus_next_channel();
    p.focus_next_channel();
    p.focus_next_channel();
    assert_eq!(p.channel(), 2, "can't go past blue");
}

#[test]
fn typing_digits_accumulates_then_restarts_after_three() {
    let mut p = ColorPicker::new([0, 0, 0]);
    p.type_digit('2');
    p.type_digit('5');
    p.type_digit('5');
    assert_eq!(p.rgb()[0], 255);
    // A fourth digit starts a new number.
    p.type_digit('7');
    assert_eq!(p.rgb()[0], 7);
    // Over-255 clamps.
    p.type_digit('9');
    p.type_digit('9');
    assert_eq!(p.rgb()[0], 255, "79->799 clamps to 255");
}

#[test]
fn backspace_walks_the_typed_number_back_down() {
    let mut p = ColorPicker::new([0, 0, 0]);
    p.type_digit('1');
    p.type_digit('2');
    p.type_digit('8'); // 128
    p.backspace(); // "12"
    assert_eq!(p.rgb()[0], 12);
    p.backspace(); // "1"
    assert_eq!(p.rgb()[0], 1);
}

#[test]
fn adjusting_clears_any_half_typed_digits() {
    let mut p = ColorPicker::new([0, 0, 0]);
    p.type_digit('1'); // buf = "1"
    p.adjust(1); // 1 -> 2, buf cleared
    assert_eq!(p.rgb()[0], 2);
    p.type_digit('9'); // fresh number, not "19"
    assert_eq!(p.rgb()[0], 9);
}

#[test]
fn hex_is_uppercase_and_zero_padded() {
    assert_eq!(ColorPicker::new([0, 15, 255]).hex(), "#000FFF");
}

#[test]
fn revert_restores_the_opening_colour() {
    let mut p = ColorPicker::new([100, 100, 100]);
    p.adjust(50);
    assert_eq!(p.rgb(), [150, 100, 100]);
    p.revert();
    assert_eq!(p.rgb(), [100, 100, 100]);
    assert_eq!(p.original(), [100, 100, 100]);
}

#[test]
fn default_key_map_reports_accept_cancel_and_changes() {
    let mut p = ColorPicker::new([0, 0, 0]);
    assert_eq!(
        p.handle_key(KeyEvent::new(KeyCode::Enter, false)),
        ColorPickerAction::Accept
    );
    assert_eq!(
        p.handle_key(KeyEvent::new(KeyCode::Esc, false)),
        ColorPickerAction::Cancel
    );
    assert_eq!(
        p.handle_key(KeyEvent::new(KeyCode::Right, false)),
        ColorPickerAction::Changed
    );
    assert_eq!(p.rgb()[0], 1);
    // Ctrl+Right steps by 16.
    let ctrl_right = KeyEvent::new(KeyCode::Right, true);
    assert_eq!(p.handle_key(ctrl_right), ColorPickerAction::Changed);
    assert_eq!(p.rgb()[0], 17);
    assert_eq!(
        p.handle_key(KeyEvent::new(KeyCode::Char('x'), false)),
        ColorPickerAction::Ignored
    );
}

#[test]
fn renders_a_swatch_hex_and_three_bars_without_panicking() {
    let picker = ColorPicker::new([255, 0, 128]);
    let style = ColorPickerStyle::default();
    let labels = ColorPickerLabels {
        channels: ["Red", "Green", "Blue"],
        hint: Some("arrows adjust, Enter accepts"),
    };
    let area = Rect::new(0, 0, 30, 7);
    let lines = picker.widget(&style, &labels).render_into(area);
    let rendered = painted(area, &lines);
    assert!(rendered.contains("#FF0080"), "shows the hex value");
    assert!(rendered.contains("Red"), "shows a channel label");
    assert!(rendered.contains('›'), "marks the focused channel");
}

#[test]
fn adjusting_never_overflows() {
    let mut p = ColorPicker::new([200, 0, 0]);
    p.adjust(i16::MAX);
    assert_eq!(p.rgb(), [255, 0, 0]);
    p.adjust(i16::MIN);
    assert_eq!(p.rgb(), [0, 0, 0]);
}

#[test]
fn every_channel_number_past_blue_is_blue() {
    let mut p = ColorPicker::new([1, 2, 3]);
    p.focus_channel(usize::MAX);
    assert_eq!(p.channel(), 2);
    p.focus_channel(1);
    assert_eq!(p.channel(), 1);
}

#[test]
fn only_digits_are_typed() {
    let mut p = ColorPicker::new([9, 9, 9]);
    for c in ['a', ' ', '/', ':', '\u{663}'] {
        p.type_digit(c);
    }
    assert_eq!(p.rgb(), [9, 9, 9]);
    p.type_digit('0');
    assert_eq!(p.rgb(), [0, 9, 9]);
}

#[test]
fn deleting_all_digits_leaves_zero() {
    let mut p = ColorPicker::new([7, 0, 0]);
    p.backspace();
    assert_eq!(p.rgb(), [0, 0, 0]);
    p.type_digit('4');
    p.backspace();
    assert_eq!(p.rgb(), [0, 0, 0]);
}

#[test]
fn setting_the_colour_forgets_typed_digits() {
    let mut p = ColorPicker::new([0, 0, 0]);
    p.type_digit('1');
    p.set_rgb([5, 6, 7]);
    assert_eq!((p.rgb(), p.original()), ([5, 6, 7], [0, 0, 0]));
    p.type_digit('2');
    assert_eq!(p.rgb(), [2, 6, 7]);
    let copy = p.clone();
    assert_eq!(copy.rgb(), p.rgb());
}

#[test]
fn every_key_of_the_map_does_what_it_says() {
    let mut p = ColorPicker::new([100, 100, 100]);
    let press = |p: &mut ColorPicker, code: KeyCode| p.handle_key(KeyEvent::new(code, false));
    assert_eq!(press(&mut p, KeyCode::Down), ColorPickerAction::Changed);
    assert_eq!(p.channel(), 1);
    press(&mut p, KeyCode::Char('j'));
    assert_eq!(p.channel(), 2);
    press(&mut p, KeyCode::Char('k'));
    press(&mut p, KeyCode::Up);
    assert_eq!(p.channel(), 0);
    press(&mut p, KeyCode::Left);
    assert_eq!(p.rgb()[0], 99);
    press(&mut p, KeyCode::PageUp);
    assert_eq!(p.rgb()[0], 115);
    press(&mut p, KeyCode::PageDown);
    p.handle_key(KeyEvent::new(KeyCode::Left, true));
    assert_eq!(p.rgb()[0], 83);
    press(&mut p, KeyCode::Char('4'));
    press(&mut p, KeyCode::Char('2'));
    assert_eq!(p.rgb()[0], 42);
    press(&mut p, KeyCode::Backspace);
    assert_eq!(p.rgb(), [4, 100, 100]);
    assert_eq!(press(&mut p, KeyCode::Home), ColorPickerAction::Ignored);
    assert_eq!(p.original(), [100, 100, 100]);
}

#[test]
fn the_rows_of_a_picker_are_where_they_should_be() {
    let picker = ColorPicker::new([255, 0, 128]);
    let style = ColorPickerStyle::default();
    let labels = ColorPickerLabels {
        hint: Some("hint"),
        ..ColorPickerLabels::default()
    };
    for y in [0, 1, 17, 900] {
        for height in 5..120u16 {
            let area = Rect::new(3, y, 30, height);
            let lines = picker.widget(&style, &labels).render_into(area);
            let rows: Vec<Rect> = lines.iter().map(|placed| placed.area).collect();
            let mut expected = vec![
                Rect::new(3, y, 30, 1),
                Rect::new(3, y + 2, 30, 1),
                Rect::new(3, y + 3, 30, 1),
                Rect::new(3, y + 4, 30, 1),
            ];
            if height > 5 {
                expected.push(Rect::new(3, y + 5, 30, height - 5));
            }
            assert_eq!(rows, expected);
        }
    }
    assert!(picker.widget(&style, &labels).render_into(Rect::new(0, 0, 0, 9)).is_empty());
    assert!(picker.widget(&style, &labels).render_into(Rect::new(0, 0, 9, 0)).is_empty());
    let low = Rect::new(2, 0, 30, 2);
    for placed in picker.widget(&style, &labels).render_into(low) {
        assert_eq!((placed.area.x, placed.area.width), (2, 30));
    }
}

#[test]
fn the_lines_of_a_picker_say_what_they_should() {
    let mut picker = ColorPicker::new([255, 0, 128]);
    picker.focus_channel(2);
    let style = ColorPickerStyle {
        bar_width: 4,
        ..ColorPickerStyle::default()
    };
    let labels = ColorPickerLabels::default();
    let lines = picker.widget(&style, &labels).render_into(Rect::new(0, 0, 30, 7));
    assert_eq!(lines.len(), 4);
    let texts: Vec<String> = lines
        .iter()
        .map(|placed| placed.line.spans.iter().map(|s| s.content.as_str()).collect())
        .collect();
    assert_eq!(texts[0], "        #FF0080");
    assert_eq!(texts[1], "  R ████ 255");
    assert_eq!(texts[2], "  G ░░░░   0");
    assert_eq!(texts[3], "› B ██░░ 128");
    assert_eq!(lines[0].line.spans[0].style.bg, Some(Color::Rgb(255, 0, 128)));
    assert_eq!(lines[1].line.spans[0].style.add_modifier, DIM);
    assert_eq!(lines[3].line.spans[0].style.add_modifier, BOLD);
    assert_eq!(lines[3].line.spans[1].style, Style::default());
    assert!(lines.iter().all(|placed| !placed.wrapped));
}

#[test]
fn the_hint_comes_last_and_wraps() {
    let picker = ColorPicker::new([0, 0, 0]);
    let style = ColorPickerStyle::default();
    let labels = ColorPickerLabels {
        channels: ["a", "b", "c"],
        hint: Some("press a key"),
    };
    let area = Rect::new(0, 0, 8, 8);
    let lines = picker.widget(&style, &labels).render_into(area);
    assert_eq!(lines.len(), 5);
    assert!(lines[4].wrapped);
    assert_eq!(lines[4].line.spans[0].content, "press a key");
    assert_eq!(lines[4].line.spans[0].style.add_modifier, DIM);
    assert!(painted(area, &lines).contains("press a \nkey"));
}

#[test]
fn a_bar_has_at_least_one_cell() {
    let picker = ColorPicker::new([255, 254, 0]);
    let style = ColorPickerStyle {
        bar_width: 0,
        ..ColorPickerStyle::default()
    };
    let labels = ColorPickerLabels::default();
    let lines = picker.widget(&style, &labels).render_into(Rect::new(0, 0, 30, 7));
    assert_eq!(lines[1].line.spans[1].content, "█");
    assert_eq!(lines[2].line.spans[1].content, "░");
    assert_eq!(lines[2].line.spans[2].content, " 254");
}

#[test]
fn every_row_of_a_picker_lies_within_its_area() {
    let picker = ColorPicker::new([1, 2, 3]);
    let style = ColorPickerStyle::default();
    let labels = ColorPickerLabels {
        hint: Some("hint"),
        ..ColorPickerLabels::default()
    };
    for y in [0, 1, 9, 65_530, 65_534, 65_535] {
        for height in 1..12u16 {
            let area = Rect {
                x: 4,
                y,
                width: 20,
                height,
            };
            let lines = picker.widget(&style, &labels).render_into(area);
            assert!(lines.len() >= 4);
            for placed in lines {
                let at = placed.area;
                assert_eq!((at.x, at.width), (4, 20));
                assert!(at.y >= y);
                assert!(u32::from(at.y) + u32::from(at.height) <= u32::from(y) + u32::from(height));
            }
        }
    }
}

#[test]
fn a_low_picker_fills_its_area_and_leaves_the_hint_out() {
    let picker = ColorPicker::new([1, 2, 3]);
    let style = ColorPickerStyle::default();
    let labels = ColorPickerLabels {
        hint: Some("hint"),
        ..ColorPickerLabels::default()
    };
    for height in 1..5u16 {
        let lines = picker
            .widget(&style, &labels)
            .render_into(Rect::new(0, 10, 20, height));
        assert_eq!(lines.len(), 4);
        assert_eq!(lines[0].area.y, 10);
        for pair in lines.windows(2) {
            assert!(pair[0].area.y + pair[0].area.height <= pair[1].area.y);
        }
        assert!(lines.iter().all(|placed| placed.area.height <= 1));
        assert_eq!(lines[3].area.y + lines[3].area.height, 10 + height);
    }
}
