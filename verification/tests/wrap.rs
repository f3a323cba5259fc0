//! Wrapping lines.

use paperboy_tui::style::{Color, Line, Span, Style};
use paperboy_tui::wrap::{wrap_line, wrap_line_window, wrapped_row_count};

#[test]
fn wrapped_row_count_matches_wrap_line_for_various_lengths() {
    for (len, width) in [(0, 10), (1, 10), (10, 10), (11, 10), (25, 10), (7, 0)] {
        let text = "x".repeat(len);
        let actual = wrap_line(Line::raw(&text), width).len();
        assert_eq!(
            wrapped_row_count(len, width),
            actual,
            "len={len} width={width}"
        );
    }
}

fn text_of(line: &Line) -> String {
    line.spans.iter().map(|s| s.content.as_str()).collect()
}

fn red() -> Style {
    Style {
        fg: Some(Color::Red),
        ..Style::default()
    }
}

#[test]
fn wrapping_breaks_between_characters_and_keeps_styles() {
    let line = Line {
        spans: vec![
            Span::raw("ab".to_string()),
            Span::styled("cdéf".to_string(), red()),
            Span::raw("".to_string()),
            Span::raw("g".to_string()),
        ],
    };
    let rows = wrap_line(line, 3);
    assert_eq!(rows.len(), 3);
    assert_eq!(text_of(&rows[0]), "abc");
    assert_eq!(rows[0].spans[0], Span::raw("ab".to_string()));
    assert_eq!(rows[0].spans[1], Span::styled("c".to_string(), red()));
    assert_eq!(rows[1].spans, vec![Span::styled("déf".to_string(), red())]);
    assert_eq!(rows[2].spans, vec![Span::raw("g".to_string())]);
}

#[test]
fn neighbouring_spans_of_one_style_stay_apart() {
    let line = Line {
        spans: vec![Span::raw("ab".to_string()), Span::raw("cd".to_string())],
    };
    let rows = wrap_line(line, 10);
    assert_eq!(rows[0].spans.len(), 2);
    assert_eq!(rows[0].spans[1].content, "cd");
}

#[test]
fn a_width_of_zero_leaves_the_line_alone() {
    let line = Line {
        spans: vec![Span::raw("".to_string()), Span::styled("x".to_string(), red())],
    };
    let rows = wrap_line(line.clone(), 0);
    assert_eq!(rows, vec![line]);
}

#[test]
fn an_empty_line_wraps_to_one_empty_row() {
    let rows = wrap_line(Line::raw(""), 5);
    assert_eq!(rows.len(), 1);
    assert!(rows[0].spans.is_empty());
}

#[test]
fn an_unstyled_line_is_one_span_for_each_line_of_its_text() {
    assert_eq!(Line::raw("ab").spans, vec![Span::raw("ab".to_string())]);
    assert_eq!(Line::raw("a\r\nb\n").spans.len(), 2);
    assert_eq!(Line::raw("a\r\nb\n").spans[0].content, "a");
    assert!(Line::raw("").spans.is_empty());
}

#[test]
fn a_window_is_the_same_part_of_the_whole_wrapping() {
    for len in 0..14usize {
        let text: String = "abcdefghijklmn".chars().take(len).collect();
        for width in 0..6usize {
            let all = wrap_line(Line::raw(&text), width);
            for skip in 0..6usize {
                for max in 0..6usize {
                    let from = skip.min(all.len());
                    let to = (skip + max).min(all.len());
                    assert_eq!(
                        wrap_line_window(&text, width, skip, max),
                        all[from..to].to_vec(),
                        "len={len} width={width} skip={skip} max={max}"
                    );
                }
            }
        }
    }
}

#[test]
fn a_window_may_be_as_large_as_numbers_go() {
    let rows = wrap_line_window("abcdef", 4, 1, usize::MAX);
    assert_eq!(rows.len(), 1);
    assert_eq!(text_of(&rows[0]), "ef");
    assert!(wrap_line_window("abcdef", 4, usize::MAX, usize::MAX).is_empty());
    assert_eq!(wrap_line_window("abc", usize::MAX, 0, 1).len(), 1);
}

#[test]
fn row_counts_are_exact_at_the_edges() {
    assert_eq!(wrapped_row_count(usize::MAX, 1), usize::MAX);
    assert_eq!(wrapped_row_count(usize::MAX, usize::MAX), 1);
    assert_eq!(wrapped_row_count(20, 10), 2);
    assert_eq!(wrapped_row_count(21, 10), 3);
}
