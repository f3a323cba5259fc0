//! Where the lines of a text lie in it.

use vstd::prelude::*;

use crate::panel_model::panel_lines;
use crate::text::{
    byte_len, byte_offset, join, lemma_byte_distance, lemma_byte_offset_order,
    lemma_byte_offset_step, newline, split_newlines, strip_cr, texts, utf8_len,
};

verus! {

/// Whether line `i` starts at character `starts[i]` of `source` and `ranges[i]`
/// holds the bytes that it lies between.
pub(crate) open spec fn placed(
    source: Seq<char>,
    lines: Seq<Seq<char>>,
    ranges: Seq<(usize, usize)>,
    starts: Seq<int>,
) -> bool {
    &&& ranges.len() == lines.len()
    &&& starts.len() == lines.len()
    &&& forall|i: int|
        0 <= i < lines.len() ==> placed_at(source, #[trigger] lines[i], ranges[i], starts[i])
}

/// Whether `line` is the part of `source` that starts at character `start` and
/// lies between the bytes of `range`.
pub(crate) open spec fn placed_at(
    source: Seq<char>,
    line: Seq<char>,
    range: (usize, usize),
    start: int,
) -> bool {
    &&& 0 <= start <= start + line.len() <= source.len()
    &&& line == source.subrange(start, start + line.len())
    &&& range.0 == byte_offset(source, start)
    &&& range.1 == byte_offset(source, start + line.len())
}

/// The lines of a text as byte ranges, with their lengths in characters.
pub(crate) struct LineRanges {
    pub(crate) ranges: Vec<(usize, usize)>,
    pub(crate) lens: Vec<usize>,
    pub(crate) starts: Ghost<Seq<int>>,
}

impl LineRanges {
    /// Whether these are the places of `lines` in `source`.
    pub(crate) open spec fn finds(&self, source: Seq<char>, lines: Seq<Seq<char>>) -> bool {
        &&& placed(source, lines, self.ranges@, self.starts@)
        &&& self.lens@.len() == lines.len()
        &&& forall|i: int| 0 <= i < lines.len() ==> #[trigger] self.lens@[i] == lines[i].len()
    }
}

/// Splits a text into its lines: at every line feed, less the carriage return
/// before it.
pub(crate) fn split_line_ranges(source: &str) -> (r: LineRanges)
    ensures
        r.finds(source@, panel_lines(source@)),
{
    let total: usize = byte_len(source);
    let mut ranges: Vec<(usize, usize)> = Vec::new();
    let mut lens: Vec<usize> = Vec::new();
    let ghost mut starts: Seq<int> = Seq::<int>::empty();
    let mut pos: usize = 0;
    let mut start: usize = 0;
    let mut len: usize = 0;
    let mut after_cr: bool = false;
    let ghost mut first: int = 0;
    proof {
        assert(source@.take(0) =~= Seq::<char>::empty());
        assert(source@.subrange(0, 0) =~= Seq::<char>::empty());
        lemma_byte_offset_order(source@, 0, source@.len() as int);
    }
    for c in it: source.chars()
        invariant
            it.seq() == source@,
            total == byte_offset(source@, source@.len() as int),
            source@.len() <= total,
            pos == byte_offset(source@, it.index() as int),
            0 <= first <= it.index(),
            start == byte_offset(source@, first),
            len == it.index() - first,
            after_cr == (len > 0 && source@[it.index() - 1] == '\r'),
            split_newlines(source@.take(it.index() as int)).len() == ranges@.len() + 1,
            split_newlines(source@.take(it.index() as int)).last() == source@.subrange(
                first,
                it.index() as int,
            ),
            ranges@.len() == lens@.len() == starts.len(),
            forall|i: int|
                0 <= i < lens@.len() ==> #[trigger] lens@[i] == strip_cr(
                    split_newlines(source@.take(it.index() as int))[i],
                ).len(),
            forall|i: int|
                0 <= i < ranges@.len() ==> placed_at(
                    source@,
                    strip_cr(split_newlines(source@.take(it.index() as int))[i]),
                    #[trigger] ranges@[i],
                    starts[i],
                ),
    {
        let ghost k = it.index() as int;
        let ghost seen = source@.take(k);
        proof {
            assert(source@.take(k + 1).drop_last() =~= seen);
            assert(source@.take(k + 1).last() == c);
            lemma_byte_offset_step(source@, k);
            lemma_byte_offset_order(source@, k + 1, source@.len() as int);
        }
        if c == '\n' {
            let ghost piece = source@.subrange(first, k);
            let (end, line_len): (usize, usize) = if after_cr {
                proof {
                    lemma_byte_offset_step(source@, k - 1);
                }
                (pos - utf8_len('\r'), len - 1)
            } else {
                (pos, len)
            };
            proof {
                assert(piece.len() == len);
                if after_cr {
                    assert(piece.last() == '\r');
                    assert(strip_cr(piece) =~= source@.subrange(first, k - 1));
                } else {
                    assert(piece.len() > 0 ==> piece.last() == source@[k - 1]);
                }
                assert(placed_at(source@, strip_cr(piece), (start, end), first));
            }
            ranges.push((start, end));
            lens.push(line_len);
            pos = pos + utf8_len(c);
            start = pos;
            len = 0;
            after_cr = false;
            proof {
                starts = starts.push(first);
                first = k + 1;
                assert(source@.subrange(k + 1, k + 1) =~= Seq::<char>::empty());
                let pieces = split_newlines(source@.take(k + 1));
                assert forall|i: int| 0 <= i < ranges@.len() implies placed_at(
                    source@,
                    strip_cr(pieces[i]),
                    #[trigger] ranges@[i],
                    starts[i],
                ) by {
                    if i < ranges@.len() - 1 {
                        assert(pieces[i] == split_newlines(seen)[i]);
                    }
                }
            }
        } else {
            after_cr = c == '\r';
            pos = pos + utf8_len(c);
            len = len + 1;
            proof {
                assert(source@.subrange(first, k + 1) =~= source@.subrange(first, k).push(c));
                let pieces = split_newlines(source@.take(k + 1));
                assert forall|i: int| 0 <= i < ranges@.len() implies placed_at(
                    source@,
                    strip_cr(pieces[i]),
                    #[trigger] ranges@[i],
                    starts[i],
                ) by {
                    assert(pieces[i] == split_newlines(seen)[i]);
                }
            }
        }
    }
    let ghost n = source@.len() as int;
    let ghost pieces = split_newlines(source@);
    proof {
        assert(source@.take(n) =~= source@);
        assert(n - first > 0 ==> len > 0);
    }
    if len > 0 || ranges.len() == 0 {
        ranges.push((start, pos));
        lens.push(len);
        proof {
            starts = starts.push(first);
        }
    }
    let r = LineRanges { ranges, lens, starts: Ghost(starts) };
    proof {
        let lines = panel_lines(source@);
        assert(pieces.last().len() == len);
        if len == 0 && pieces.len() == 1 {
            assert(lines =~= seq![pieces.last()]);
        }
        assert(r.ranges@.len() == lines.len());
        assert forall|i: int| 0 <= i < lines.len() implies placed_at(
            source@,
            #[trigger] lines[i],
            r.ranges@[i],
            starts[i],
        ) by {
            if i == pieces.len() - 1 {
                assert(lines[i] =~= source@.subrange(first, n));
            } else {
                assert(lines[i] == strip_cr(pieces[i]));
            }
        }
    }
    r
}

/// Where line `i` starts in the lines joined by line feeds.
pub(crate) open spec fn join_start(lines: Seq<Seq<char>>, i: int) -> int
    decreases i,
{
    if i <= 0 {
        0
    } else {
        join_start(lines, i - 1) + lines[i - 1].len() + 1
    }
}

proof fn lemma_join_start_prefix(lines: Seq<Seq<char>>, i: int)
    requires
        0 <= i < lines.len(),
    ensures
        join_start(lines.drop_last(), i) == join_start(lines, i),
        join_start(lines, i) >= 0,
    decreases i,
{
    if i > 0 {
        lemma_join_start_prefix(lines, i - 1);
    }
}

/// Lines joined by line feeds stand where [`join_start`] says, with a line feed
/// behind each but the last.
proof fn lemma_join_start(lines: Seq<Seq<char>>, i: int)
    requires
        0 <= i < lines.len(),
    ensures
        0 <= join_start(lines, i),
        join_start(lines, i) + lines[i].len() <= join(lines, newline()).len(),
        join(lines, newline()).subrange(join_start(lines, i), join_start(lines, i) + lines[i].len())
            == lines[i],
        i + 1 < lines.len() ==> join_start(lines, i) + lines[i].len() < join(
            lines,
            newline(),
        ).len() && join(lines, newline())[join_start(lines, i) + lines[i].len()] == '\n',
        join(lines, newline()).len() == join_start(lines, lines.len() as int) - 1,
    decreases lines.len(),
{
    let all = join(lines, newline());
    let n = lines.len() as int;
    if n == 1 {
        assert(all.subrange(0, all.len() as int) =~= lines[0]);
        assert(join_start(lines, 1) == join_start(lines, 0) + lines[0].len() + 1);
    } else {
        let less = lines.drop_last();
        let before = join(less, newline());
        lemma_join_start(less, n - 2);
        lemma_join_start_prefix(lines, n - 2);
        assert(join_start(less, n - 1) == join_start(less, n - 2) + less[n - 2].len() + 1);
        assert(join_start(lines, n - 1) == join_start(lines, n - 2) + lines[n - 2].len() + 1);
        assert(join_start(lines, n) == join_start(lines, n - 1) + lines[n - 1].len() + 1);
        if i < n - 1 {
            lemma_join_start(less, i);
            lemma_join_start_prefix(lines, i);
            let a = join_start(lines, i);
            let b = a + lines[i].len();
            assert(all.subrange(a, b) =~= before.subrange(a, b));
        } else {
            assert(all.subrange(before.len() as int + 1, all.len() as int) =~= lines.last());
        }
    }
}

/// The places of `parts` in `source`, which is `parts` joined by line feeds.
pub(crate) fn joined_line_ranges(
    source: &str,
    parts: &Vec<String>,
    lens: Vec<usize>,
) -> (r: LineRanges)
    requires
        parts@.len() > 0,
        source@ == join(texts(parts@), newline()),
        lens@.len() == parts@.len(),
        forall|i: int| 0 <= i < parts@.len() ==> #[trigger] lens@[i] == parts@[i]@.len(),
    ensures
        r.finds(source@, texts(parts@)),
{
    let total: usize = byte_len(source);
    let ghost lines = texts(parts@);
    let ghost starts = Seq::new(lines.len(), |i: int| join_start(lines, i));
    let mut ranges: Vec<(usize, usize)> = Vec::new();
    let mut pos: usize = 0;
    let mut i: usize = 0;
    proof {
        lemma_byte_offset_order(source@, 0, source@.len() as int);
        assert(source@.take(0) =~= Seq::<char>::empty());
    }
    while i < parts.len()
        invariant
            i <= parts.len(),
            lines == texts(parts@),
            source@ == join(lines, newline()),
            total == byte_offset(source@, source@.len() as int),
            starts == Seq::new(lines.len(), |k: int| join_start(lines, k)),
            i < parts.len() ==> pos == byte_offset(source@, join_start(lines, i as int)),
            ranges@.len() == i,
            forall|k: int|
                0 <= k < i ==> placed_at(source@, lines[k], #[trigger] ranges@[k], starts[k]),
        decreases parts.len() - i,
    {
        let ghost a = join_start(lines, i as int);
        let ghost b = a + lines[i as int].len();
        proof {
            lemma_join_start(lines, i as int);
            lemma_byte_distance(source@, a, b);
            lemma_byte_offset_order(source@, b, source@.len() as int);
        }
        let end: usize = pos + byte_len(parts[i].as_str());
        ranges.push((pos, end));
        assert(placed_at(source@, lines[i as int], ranges@[i as int], starts[i as int]));
        if i + 1 < parts.len() {
            proof {
                lemma_byte_offset_step(source@, b);
                lemma_byte_offset_order(source@, b + 1, source@.len() as int);
                assert(join_start(lines, i + 1) == b + 1);
            }
            pos = end + utf8_len('\n');
        }
        i = i + 1;
    }
    LineRanges { ranges, lens, starts: Ghost(starts) }
}

} // verus!
