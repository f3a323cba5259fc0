//! What the picker counts on of `ratatui`'s vertical layouts.

use ratatui::layout::{Constraint, Layout, Rect};

/// Splits an area into rows of fixed heights and one for the rest, and looks at
/// where they lie.
fn split_is_stacked(area: Rect, heights: &[u16]) {
    let mut constraints: Vec<Constraint> = heights.iter().map(|&n| Constraint::Length(n)).collect();
    constraints.push(Constraint::Min(0));
    let rows = Layout::vertical(constraints).split(area);
    let end = (u32::from(area.y) + u32::from(area.height)).min(65_535);
    let mut at = u32::from(area.y);
    for row in rows.iter() {
        assert_eq!((row.x, row.width), (area.x, area.width), "{area:?} {heights:?}");
        assert_eq!(u32::from(row.y), at, "{area:?} {heights:?} {rows:?}");
        at += u32::from(row.height);
    }
    assert_eq!(at, end, "{area:?} {heights:?} {rows:?}");
    let needed: u32 = heights.iter().map(|&n| u32::from(n)).sum();
    for (row, &n) in rows.iter().zip(heights) {
        assert!(row.height <= n, "{area:?} {heights:?} {rows:?}");
        if needed <= end - u32::from(area.y) {
            assert_eq!(row.height, n, "{area:?} {heights:?} {rows:?}");
        }
    }
    if needed >= end - u32::from(area.y) {
        assert_eq!(rows[heights.len()].height, 0, "{area:?} {heights:?} {rows:?}");
    }
}

#[test]
fn rows_of_one_cell_are_stacked_in_any_area() {
    for y in [0, 1, 7, 300, 65_531, 65_534, 65_535] {
        for height in 0..12u16 {
            let area = Rect {
                x: 3,
                y,
                width: 20,
                height,
            };
            split_is_stacked(area, &[1, 1, 1, 1, 1]);
        }
    }
}

#[test]
fn rows_of_other_heights_are_stacked_too() {
    let mut seed: u32 = 2024;
    let mut next = |below: u32| {
        seed = seed.wrapping_mul(1_664_525).wrapping_add(1_013_904_223);
        (seed >> 16) % below
    };
    for _ in 0..500 {
        let count = next(9);
        let heights: Vec<u16> = (0..count).map(|_| next(6) as u16).collect();
        let area = Rect::new(1, next(200) as u16, 10, next(30) as u16);
        split_is_stacked(area, &heights);
    }
}
