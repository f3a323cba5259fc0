//! How many rows the lines of a panel take.

use vstd::prelude::*;

use crate::panel_model::{lemma_line_at, lemma_line_rows, lemma_rows_before, PanelModel, WrapMode};
use crate::text::least;
use crate::wrap::wrapped_row_count;

verus! {

/// How many rows lie above each line: `cum[i]` counts the rows of the lines
/// before line `i`, so its last entry is the number of all rows. `lens` keeps
/// the length of every line, so that it need not be counted again.
pub(crate) struct LineRows {
    pub(crate) cum: Vec<u32>,
    pub(crate) lens: Vec<usize>,
}

impl LineRows {
    /// Whether these are the rows of `m`.
    pub(crate) open spec fn counts(&self, m: PanelModel) -> bool {
        &&& self.cum@.len() == m.lines.len() + 1
        &&& self.lens@.len() == m.lines.len()
        &&& forall|i: int| 0 <= i <= m.lines.len() ==> #[trigger] self.cum@[i] == m.rows_before(i)
        &&& forall|i: int| 0 <= i < m.lines.len() ==> #[trigger] self.lens@[i] == m.lines[i].len()
    }

    /// Counts the rows of lines of the lengths `lens`.
    pub(crate) fn build(
        lens: Vec<usize>,
        width: usize,
        mode: WrapMode,
        Ghost(m): Ghost<PanelModel>,
    ) -> (r: Self)
        requires
            lens@.len() == m.lines.len(),
            forall|i: int| 0 <= i < m.lines.len() ==> #[trigger] lens@[i] == m.lines[i].len(),
            width == m.wrap_width(),
            mode == m.mode,
            m.total_rows() <= u32::MAX,
        ensures
            r.counts(m),
    {
        let mut cum: Vec<u32> = Vec::new();
        cum.push(0);
        let mut total: u32 = 0;
        let mut i: usize = 0;
        while i < lens.len()
            invariant
                lens@.len() == m.lines.len(),
                forall|k: int| 0 <= k < m.lines.len() ==> #[trigger] lens@[k] == m.lines[k].len(),
                width == m.wrap_width(),
                mode == m.mode,
                m.total_rows() <= u32::MAX,
                i <= lens.len(),
                total == m.rows_before(i as int),
                cum@.len() == i + 1,
                forall|k: int| 0 <= k <= i ==> #[trigger] cum@[k] == m.rows_before(k),
            decreases lens.len() - i,
        {
            proof {
                lemma_rows_before(m, i as int, m.lines.len() as int);
                lemma_line_rows(m, i as int);
            }
            let rows: u32 = match mode {
                WrapMode::Wrap => wrapped_row_count(lens[i], width) as u32,
                WrapMode::Clip => 1,
            };
            total = total + rows;
            cum.push(total);
            i = i + 1;
        }
        LineRows { cum, lens }
    }

    /// The number of all rows, at least one.
    pub(crate) fn total_rows(&self, Ghost(m): Ghost<PanelModel>) -> (r: u32)
        requires
            self.counts(m),
            m.lines.len() > 0,
        ensures
            r == m.total_rows(),
            r >= 1,
    {
        proof {
            lemma_rows_before(m, 0, m.lines.len() as int);
        }
        self.cum[self.cum.len() - 1]
    }

    /// The number of lines.
    pub(crate) fn line_count(&self, Ghost(m): Ghost<PanelModel>) -> (r: usize)
        requires
            self.counts(m),
        ensures
            r == m.lines.len(),
    {
        self.cum.len() - 1
    }

    /// The line that `row` belongs to and the row's number within it, found by
    /// bisection.
    pub(crate) fn locate(&self, row: u32, Ghost(m): Ghost<PanelModel>) -> (r: (usize, u32))
        requires
            self.counts(m),
            m.lines.len() > 0,
        ensures
            r.0 == m.line_at(row as int),
            r.0 < m.lines.len(),
            r.1 == row - m.rows_before(m.line_at(row as int)),
    {
        let mut low: usize = 0;
        let mut high: usize = self.cum.len() - 1;
        while high - low > 1
            invariant
                self.counts(m),
                low < high <= m.lines.len(),
                m.rows_before(low as int) <= row,
                high < m.lines.len() ==> row < m.rows_before(high as int),
            decreases high - low,
        {
            let mid: usize = low + (high - low) / 2;
            if self.cum[mid] <= row {
                low = mid;
            } else {
                high = mid;
            }
        }
        proof {
            lemma_line_at(m, row as int, low as int);
        }
        (low, row - self.cum[low])
    }
}

} // verus!
