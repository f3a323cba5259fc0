//! Runs of characters in one style, and lines taken apart into them.

use vstd::prelude::*;

use crate::panel_model::{char_styles, repeated};
use crate::style::{row_text, Line, SpanModel, Style};
use crate::text::{byte_len, strip_cr, substring, texts};

verus! {

/// The characters from the first number up to, but not including, the second
/// are drawn in the style.
pub(crate) type StyleRun = (usize, usize, Style);

/// Whether `runs` gives every character of a line its style: the runs follow one
/// another from the line's start to its end, without a gap.
pub(crate) open spec fn tiles(runs: Seq<StyleRun>, styles: Seq<Style>) -> bool {
    &&& runs.len() > 0 ==> runs[0].0 == 0 && runs.last().1 == styles.len()
    &&& forall|j: int, k: int|
        #![trigger runs[j], runs[k]]
        0 <= j < runs.len() - 1 && k == j + 1 ==> runs[j].1 == runs[k].0
    &&& forall|k: int|
        0 <= k < runs.len() ==> (#[trigger] runs[k]).0 < runs[k].1 && runs[k].1 <= styles.len()
    &&& forall|k: int, c: int|
        #![trigger runs[k], styles[c]]
        0 <= k < runs.len() && runs[k].0 <= c < runs[k].1 ==> styles[c] == runs[k].2
    &&& forall|c: int| 0 <= c < styles.len() ==> #[trigger] covered(runs, c)
}

/// Whether some run reaches over character `c`.
pub(crate) open spec fn covered(runs: Seq<StyleRun>, c: int) -> bool {
    exists|k: int| 0 <= k < runs.len() && (#[trigger] runs[k]).0 <= c < runs[k].1
}

/// The style of character `c`.
pub(crate) fn style_at(
    runs: &Vec<StyleRun>,
    c: usize,
    Ghost(styles): Ghost<Seq<Style>>,
) -> (r: Style)
    requires
        tiles(runs@, styles),
        c < styles.len(),
    ensures
        r == styles[c as int],
{
    let mut k: usize = 0;
    while k < runs.len()
        invariant
            k <= runs.len(),
            tiles(runs@, styles),
            c < styles.len(),
            forall|j: int| 0 <= j < k ==> !((#[trigger] runs@[j]).0 <= c < runs@[j].1),
        decreases runs.len() - k,
    {
        if runs[k].0 <= c && c < runs[k].1 {
            return runs[k].2;
        }
        k = k + 1;
    }
    proof {
        assert(covered(runs@, c as int));
    }
    Style::default()
}

/// The text of a line of styled runs, its runs and its length.
pub(crate) struct StyledText {
    pub(crate) text: String,
    pub(crate) runs: Vec<StyleRun>,
    pub(crate) len: usize,
}

/// Takes a line of styled runs apart. Empty runs leave no trace.
pub(crate) fn take_apart(line: &Line) -> (r: StyledText)
    ensures
        r.text@ == row_text(line@),
        r.len == r.text@.len(),
        char_styles(line@).len() == r.len,
        tiles(r.runs@, char_styles(line@)),
        forall|k: int| 0 <= k < r.runs@.len() - 1 ==> (#[trigger] r.runs@[k]).1 <= r.runs@.last().0,
{
    let mut text = String::new();
    let mut runs: Vec<StyleRun> = Vec::new();
    let mut col: usize = 0;
    let mut i: usize = 0;
    assert(line@.take(0) =~= Seq::<SpanModel>::empty());
    while i < line.spans.len()
        invariant
            i <= line.spans.len(),
            text@ == row_text(line@.take(i as int)),
            col == text@.len(),
            char_styles(line@.take(i as int)).len() == col,
            tiles(runs@, char_styles(line@.take(i as int))),
            forall|k: int| 0 <= k < runs@.len() - 1 ==> (#[trigger] runs@[k]).1 <= runs@.last().0,
        decreases line.spans.len() - i,
    {
        let span = &line.spans[i];
        let n: usize = span.content.as_str().unicode_len();
        let ghost styles = char_styles(line@.take(i as int));
        let ghost more = char_styles(line@.take(i + 1));
        proof {
            assert(line@.take(i + 1).drop_last() =~= line@.take(i as int));
            assert(line@.take(i + 1).last() == span@);
            assert(more == styles + repeated(span.style, n as nat));
        }
        if n > 0 {
            text.append(span.content.as_str());
            // No text is longer than numbers go.
            let _longest: usize = byte_len(text.as_str());
            let ghost before = runs@;
            runs.push((col, col + n, span.style));
            proof {
                if before.len() == 0 && col > 0 {
                    assert(covered(before, 0));
                }
                assert forall|j: int, k: int|
                    #![trigger runs@[j], runs@[k]]
                    0 <= j < runs@.len() - 1 && k == j + 1 implies runs@[j].1 == runs@[k].0 by {
                    assert(runs@[j] == before[j]);
                    if k < before.len() {
                        assert(runs@[k] == before[k]);
                    }
                }
                assert forall|c: int| 0 <= c < more.len() implies #[trigger] covered(runs@, c) by {
                    if c < col {
                        assert(covered(before, c));
                        let k = choose|k: int|
                            0 <= k < before.len() && (#[trigger] before[k]).0 <= c < before[k].1;
                        assert(runs@[k] == before[k]);
                    } else {
                        assert(runs@[before.len() as int].0 <= c < runs@[before.len() as int].1);
                    }
                }
                assert forall|k: int, c: int|
                    #![trigger runs@[k], more[c]]
                    0 <= k < runs@.len() && runs@[k].0 <= c < runs@[k].1 implies more[c]
                    == runs@[k].2 by {
                    if k < before.len() {
                        assert(runs@[k] == before[k]);
                        assert(more[c] == styles[c]);
                    }
                }
                assert forall|k: int| 0 <= k < runs@.len() implies (#[trigger] runs@[k]).0
                    < runs@[k].1 && runs@[k].1 <= more.len() by {
                    if k < before.len() {
                        assert(runs@[k] == before[k]);
                    }
                }
            }
            col = col + n;
        } else {
            proof {
                assert(more =~= styles);
                assert(row_text(line@.take(i + 1)) =~= text@);
            }
        }
        i = i + 1;
    }
    assert(line@.take(line@.len() as int) =~= line@);
    StyledText { text, runs, len: col }
}

/// Lines taken apart into their texts, their style runs and their lengths.
pub(crate) struct StyledLines {
    pub(crate) texts: Vec<String>,
    pub(crate) runs: Vec<Vec<StyleRun>>,
    pub(crate) lens: Vec<usize>,
    pub(crate) char_styles: Ghost<Seq<Seq<Style>>>,
}

impl StyledLines {
    /// Whether the runs give every character its style.
    pub(crate) open spec fn wf(&self) -> bool {
        &&& self.texts@.len() == self.runs@.len()
        &&& self.texts@.len() == self.lens@.len()
        &&& self.texts@.len() == self.char_styles@.len()
        &&& forall|i: int|
            0 <= i < self.texts@.len() ==> #[trigger] self.lens@[i] == self.texts@[i]@.len()
        &&& forall|i: int|
            0 <= i < self.texts@.len() ==> (#[trigger] self.char_styles@[i]).len()
                == self.texts@[i]@.len()
        &&& forall|i: int|
            0 <= i < self.texts@.len() ==> tiles(
                self.runs@[i]@,
                #[trigger] self.char_styles@[i],
            )
    }

    /// No lines.
    pub(crate) fn new() -> (r: Self)
        ensures
            r.wf(),
            r.texts@.len() == 0,
            r.char_styles@.len() == 0,
    {
        StyledLines {
            texts: Vec::new(),
            runs: Vec::new(),
            lens: Vec::new(),
            char_styles: Ghost(Seq::<Seq<Style>>::empty()),
        }
    }

    /// Adds a line.
    pub(crate) fn push(&mut self, part: StyledText, Ghost(styles): Ghost<Seq<Style>>)
        requires
            old(self).wf(),
            part.len == part.text@.len(),
            styles.len() == part.len,
            tiles(part.runs@, styles),
        ensures
            final(self).wf(),
            final(self).texts@ == old(self).texts@.push(part.text),
            final(self).char_styles@ == old(self).char_styles@.push(styles),
    {
        self.texts.push(part.text);
        self.runs.push(part.runs);
        self.lens.push(part.len);
        self.char_styles = Ghost(self.char_styles@.push(styles));
    }

    /// Adds an empty line.
    pub(crate) fn push_empty(&mut self)
        requires
            old(self).wf(),
        ensures
            final(self).wf(),
            final(self).texts@.len() == old(self).texts@.len() + 1,
            final(self).texts@.drop_last() == old(self).texts@,
            final(self).texts@.last()@ == Seq::<char>::empty(),
            final(self).char_styles@ == old(self).char_styles@.push(Seq::<Style>::empty()),
    {
        let runs: Vec<StyleRun> = Vec::new();
        self.push(
            StyledText { text: String::new(), runs, len: 0 },
            Ghost(Seq::<Style>::empty()),
        );
        assert(self.texts@.drop_last() =~= old(self).texts@);
    }
}

/// `part` without the carriage return that its text may end in.
pub(crate) fn drop_return(part: StyledText, Ghost(styles): Ghost<Seq<Style>>) -> (r: StyledText)
    requires
        part.len == part.text@.len(),
        styles.len() == part.len,
        tiles(part.runs@, styles),
        forall|k: int|
            0 <= k < part.runs@.len() - 1 ==> (#[trigger] part.runs@[k]).1 <= part.runs@.last().0,
    ensures
        r.text@ == strip_cr(part.text@),
        r.len == r.text@.len(),
        tiles(r.runs@, styles.take(r.len as int)),
{
    if part.len == 0 || part.text.as_str().get_char(part.len - 1) != '\r' {
        assert(styles.take(part.len as int) =~= styles);
        return part;
    }
    let StyledText { text, mut runs, len } = part;
    let ghost before = runs@;
    let ghost less = styles.take(len - 1);
    let text = substring(text.as_str(), 0, len - 1);
    if runs.len() > 0 {
        let last: usize = runs.len() - 1;
        let (from, to, style) = runs[last];
        if from < len - 1 {
            runs.set(last, (from, len - 1, style));
        } else {
            let _ = runs.pop();
        }
    }
    proof {
        assert forall|c: int| 0 <= c < less.len() implies #[trigger] covered(runs@, c) by {
            assert(covered(before, c));
            let k = choose|k: int| 0 <= k < before.len() && (#[trigger] before[k]).0 <= c
                < before[k].1;
            assert(runs@[k].0 <= c < runs@[k].1);
        }
        assert forall|k: int, c: int|
            #![trigger runs@[k], less[c]]
            0 <= k < runs@.len() && runs@[k].0 <= c < runs@[k].1 implies less[c] == runs@[k].2 by {
            assert(before[k].0 <= c < before[k].1);
            assert(styles[c] == before[k].2);
        }
        assert forall|k: int| 0 <= k < runs@.len() implies (#[trigger] runs@[k]).0 < runs@[k].1
            && runs@[k].1 <= less.len() by {
            assert(before[k].0 < before[k].1);
            if k < before.len() - 1 {
                assert(before[k].1 <= before.last().0);
                assert(before.last().0 < before.last().1);
            }
        }
    }
    StyledText { text, runs, len: len - 1 }
}

} // verus!
