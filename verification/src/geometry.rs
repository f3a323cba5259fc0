//! Screen rectangles.

use vstd::prelude::*;

use crate::text::least;

verus! {

/// A rectangle of terminal cells.
#[derive(Clone, Copy, Debug, PartialEq, Eq, Structural)]
pub struct Rect {
    /// Column of the left edge.
    pub x: u16,
    /// Row of the top edge.
    pub y: u16,
    /// Number of columns.
    pub width: u16,
    /// Number of rows.
    pub height: u16,
}

impl Rect {
    /// The rectangle at `(x, y)` of `width` columns and `height` rows, as far as
    /// the last column and the last row a terminal can have.
    pub fn new(x: u16, y: u16, width: u16, height: u16) -> (r: Self)
        ensures
            r.x == x,
            r.y == y,
            r.width == least(width as int, u16::MAX - x),
            r.height == least(height as int, u16::MAX - y),
    {
        let max_width: u16 = u16::MAX - x;
        let max_height: u16 = u16::MAX - y;
        Rect {
            x,
            y,
            width: if width > max_width {
                max_width
            } else {
                width
            },
            height: if height > max_height {
                max_height
            } else {
                height
            },
        }
    }

    /// Whether every row of the rectangle has a row number.
    pub open spec fn rows_fit(self) -> bool {
        self.y + self.height <= u16::MAX + 1
    }

    /// Whether every column of the rectangle has a column number.
    pub open spec fn columns_fit(self) -> bool {
        self.x + self.width <= u16::MAX + 1
    }
}

/// Cells, as rows with their first column and the column behind their last, in
/// plain numbers.
pub open spec fn cell_numbers(cells: Seq<(u16, u16, u16)>) -> Seq<(int, int, int)> {
    Seq::new(
        cells.len(),
        |k: int| (cells[k].0 as int, cells[k].1 as int, cells[k].2 as int),
    )
}

} // verus!
